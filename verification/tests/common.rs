use hopper::common::{u32tou8abe, u8tou32abe, Config};

#[test]
fn four_bytes_spell_a_number_in_their_own_order() {
    assert_eq!(u8tou32abe(&[0, 0, 0, 0]), 0);
    assert_eq!(u8tou32abe(&[0, 0, 0, 1]), 1);
    assert_eq!(u8tou32abe(&[0, 0, 1, 0]), 0x100);
    assert_eq!(u8tou32abe(&[1, 0, 0, 0]), 0x1_0000);
    assert_eq!(u8tou32abe(&[0, 1, 0, 0]), 0x100_0000);
    assert_eq!(u8tou32abe(&[0x12, 0x34, 0x56, 0x78]), 0x3412_5678);
    assert_eq!(u8tou32abe(&[0xff, 0xff, 0xff, 0xff]), 0xffff_ffff);
    assert_eq!(u8tou32abe(&[0x12, 0x34, 0x56, 0x78, 0x9a]), 0x3412_5678);
}

#[test]
fn a_number_has_four_bytes_in_their_own_order() {
    assert_eq!(u32tou8abe(0), [0, 0, 0, 0]);
    assert_eq!(u32tou8abe(1), [1, 0, 0, 0]);
    assert_eq!(u32tou8abe(0x1234_5678), [0x78, 0x56, 0x12, 0x34]);
    assert_eq!(u32tou8abe(0xffff_ffff), [0xff, 0xff, 0xff, 0xff]);
}

#[test]
fn config_holds_what_it_is_given() {
    let config = Config { maximum_queue_in_bytes: 1024, root_dir: "/tmp/queue".to_string() };
    let copy = config.clone();
    assert_eq!(copy.maximum_queue_in_bytes, 1024);
    assert_eq!(copy.root_dir, "/tmp/queue");
}
