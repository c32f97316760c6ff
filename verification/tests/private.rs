use hopper::private::{parse_seq_num, read_seq_num, read_seq_num_min, successor, Placement};

fn names(list: &[&str]) -> Vec<String> {
    list.iter().map(|name| name.to_string()).collect()
}

#[test]
fn extract_gives_the_value_of_a_memory_placement_only() {
    assert_eq!(Placement::Memory(5u64).extract(), Some(5));
    assert_eq!(Placement::<u64>::Disk(5).extract(), None);
}

#[test]
fn a_file_name_spells_its_sequence_number() {
    assert_eq!(parse_seq_num("0"), Some(0));
    assert_eq!(parse_seq_num("7"), Some(7));
    assert_eq!(parse_seq_num("1234567890"), Some(1_234_567_890));
    assert_eq!(parse_seq_num("000042"), Some(42));
    assert_eq!(parse_seq_num("+42"), Some(42));
    assert_eq!(parse_seq_num(&format!("{}", usize::max_value())), Some(usize::max_value()));
}

#[test]
fn a_name_that_is_no_number_spells_none() {
    assert_eq!(parse_seq_num(""), None);
    assert_eq!(parse_seq_num("+"), None);
    assert_eq!(parse_seq_num("-1"), None);
    assert_eq!(parse_seq_num("++1"), None);
    assert_eq!(parse_seq_num("1+"), None);
    assert_eq!(parse_seq_num("12a"), None);
    assert_eq!(parse_seq_num(" 12"), None);
    assert_eq!(parse_seq_num("index"), None);
    assert_eq!(parse_seq_num("١٢"), None);
    assert_eq!(parse_seq_num(&format!("{}0", usize::max_value())), None);
    assert_eq!(parse_seq_num("340282366920938463463374607431768211456"), None);
}

#[test]
fn parse_seq_num_agrees_with_the_standard_parser() {
    for name in ["0", "1", "9", "10", "+3", "0018", "", "x", "+", "1 ", "18446744073709551615",
        "18446744073709551616", "99999999999999999999", "-0"]
    {
        assert_eq!(parse_seq_num(name), name.parse::<usize>().ok(), "{:?}", name);
    }
}

#[test]
fn the_file_written_to_has_the_largest_number() {
    assert_eq!(read_seq_num(&names(&[])), Some(0));
    assert_eq!(read_seq_num(&names(&["0"])), Some(0));
    assert_eq!(read_seq_num(&names(&["3", "11", "7"])), Some(11));
    assert_eq!(read_seq_num(&names(&["11", "3", "7"])), Some(11));
    assert_eq!(read_seq_num(&names(&["3", "index", "7"])), None);
}

#[test]
fn the_file_read_has_the_smallest_number() {
    assert_eq!(read_seq_num_min(&names(&[])), None);
    assert_eq!(read_seq_num_min(&names(&["0"])), Some(0));
    assert_eq!(read_seq_num_min(&names(&["3", "11", "7"])), Some(3));
    assert_eq!(read_seq_num_min(&names(&["11", "7", "3"])), Some(3));
    assert_eq!(
        read_seq_num_min(&names(&[&format!("{}", usize::max_value())])),
        Some(usize::max_value())
    );
    assert_eq!(read_seq_num_min(&names(&["3", "7", "x"])), None);
}

#[test]
fn the_last_sequence_number_is_followed_by_the_first() {
    assert_eq!(successor(0), 1);
    assert_eq!(successor(41), 42);
    assert_eq!(successor(usize::max_value()), 0);
}
