use flate2::write::DeflateEncoder;
use flate2::Compression;
use hopper::deque::Queue as Ring;
use hopper::private::{Placement, Queue};
use hopper::receiver::{EndOfFile, NextStep, ReadStep};
use hopper::record::frame;
use hopper::{channel, Receiver};
use std::io::Write;

fn deflated(raw: &[u8]) -> Vec<u8> {
    let mut encoder = DeflateEncoder::new(Vec::new(), Compression::fast());
    encoder.write_all(raw).unwrap();
    encoder.finish().unwrap()
}

fn record(raw: &[u8]) -> Vec<u8> {
    frame(&deflated(raw))
}

fn queue(capacity: usize) -> Queue<u64> {
    Ring::with_capacity(capacity)
}

#[test]
fn with_nothing_queued_the_receiver_waits() {
    let mut receiver: Receiver<u64> = Receiver::new();
    let mut queue = queue(2);
    assert!(matches!(receiver.next_value(&mut queue), NextStep::Wait));
    assert!(matches!(receiver.next_value(&mut queue), NextStep::Wait));
}

#[test]
fn values_in_memory_come_as_they_are() {
    let mut receiver: Receiver<u64> = Receiver::new();
    let mut queue = queue(2);
    assert!(queue.push_back(Placement::Memory(4)).is_ok());
    assert!(queue.push_back(Placement::Memory(5)).is_ok());
    assert!(matches!(receiver.next_value(&mut queue), NextStep::Value(4)));
    assert!(matches!(receiver.next_value(&mut queue), NextStep::Value(5)));
    assert!(matches!(receiver.next_value(&mut queue), NextStep::Wait));
}

#[test]
fn a_marker_is_followed_by_its_records_and_then_by_the_queue() {
    let mut receiver: Receiver<u64> = Receiver::new();
    let mut queue = queue(3);
    assert!(queue.push_back(Placement::Disk(2)).is_ok());
    assert!(queue.push_back(Placement::Memory(9)).is_ok());
    let mut file = record(b"first");
    file.extend_from_slice(&record(b"second"));
    file.extend_from_slice(&record(b"not announced yet"));

    // Nothing of the file has been fed: the marker is taken, no record yet.
    assert!(matches!(receiver.next_value(&mut queue), NextStep::NeedBytes));
    assert_eq!(queue.size(), 1);
    receiver.feed(&file);
    match receiver.next_value(&mut queue) {
        NextStep::Encoded(raw) => assert_eq!(raw, b"first".to_vec()),
        other => panic!("{:?}", other),
    }
    match receiver.next_value(&mut queue) {
        NextStep::Encoded(raw) => assert_eq!(raw, b"second".to_vec()),
        other => panic!("{:?}", other),
    }
    assert_eq!(queue.size(), 1);
    // The third record is on disk, and not yet next.
    assert!(matches!(receiver.next_value(&mut queue), NextStep::Value(9)));
    assert!(matches!(receiver.next_value(&mut queue), NextStep::Wait));
    assert!(queue.push_back(Placement::Disk(1)).is_ok());
    match receiver.next_value(&mut queue) {
        NextStep::Encoded(raw) => assert_eq!(raw, b"not announced yet".to_vec()),
        other => panic!("{:?}", other),
    }
}

#[test]
fn records_come_whole_however_the_file_is_fed() {
    let raws: Vec<Vec<u8>> = (0..20u8).map(|i| vec![i; (i as usize) * 13]).collect();
    let mut file = Vec::new();
    for raw in raws.iter() {
        file.extend_from_slice(&record(raw));
    }
    for step in [1usize, 2, 3, 5, 7, 64, 1000] {
        let mut receiver: Receiver<u64> = Receiver::new();
        let mut queue = queue(1);
        assert!(queue.push_back(Placement::Disk(raws.len())).is_ok());
        let mut fed = 0;
        let mut got: Vec<Vec<u8>> = Vec::new();
        while got.len() < raws.len() {
            match receiver.next_value(&mut queue) {
                NextStep::Encoded(raw) => got.push(raw),
                NextStep::NeedBytes => {
                    let end = file.len().min(fed + step);
                    assert!(fed < end);
                    receiver.feed(&file[fed..end].to_vec());
                    fed = end;
                }
                other => panic!("{:?}", other),
            }
        }
        assert_eq!(got, raws);
        assert_eq!(fed, file.len());
        assert!(matches!(receiver.next_value(&mut queue), NextStep::Wait));
    }
}

#[test]
fn markers_of_empty_runs_are_passed_over() {
    let mut receiver: Receiver<u64> = Receiver::new();
    let mut queue = queue(4);
    assert!(queue.push_back(Placement::Disk(0)).is_ok());
    assert!(queue.push_back(Placement::Disk(0)).is_ok());
    assert!(queue.push_back(Placement::Memory(3)).is_ok());
    assert!(queue.push_back(Placement::Disk(0)).is_ok());
    assert!(matches!(receiver.next_value(&mut queue), NextStep::Value(3)));
    assert_eq!(queue.size(), 1);
    assert!(matches!(receiver.next_value(&mut queue), NextStep::Wait));
    assert_eq!(queue.size(), 0);
}

#[test]
fn a_payload_that_is_no_compressed_stream_is_corrupt() {
    let mut receiver: Receiver<u64> = Receiver::new();
    let mut queue = queue(1);
    assert!(queue.push_back(Placement::Disk(2)).is_ok());
    // The bytes of the value itself are no compressed stream.
    receiver.feed(&frame(&vec![0xff; 32]));
    receiver.feed(&record(b"fine"));
    assert!(matches!(receiver.next_value(&mut queue), NextStep::Corrupt));
    // The corrupt record is gone and still owed.
    assert!(matches!(receiver.read_disk_value(), ReadStep::Record(_)));
    assert!(matches!(receiver.read_disk_value(), ReadStep::NeedBytes));
}

#[test]
fn the_end_of_a_file_that_is_written_to_means_more_may_come() {
    let mut receiver: Receiver<u64> = Receiver::new();
    let mut queue = queue(1);
    assert!(queue.push_back(Placement::Disk(1)).is_ok());
    let whole = record(b"late");
    receiver.feed(&whole[..3].to_vec());
    assert!(matches!(receiver.next_value(&mut queue), NextStep::NeedBytes));
    assert_eq!(receiver.end_of_file(false), EndOfFile::Retry);
    // What was fed is kept.
    receiver.feed(&whole[3..].to_vec());
    match receiver.next_value(&mut queue) {
        NextStep::Encoded(raw) => assert_eq!(raw, b"late".to_vec()),
        other => panic!("{:?}", other),
    }
}

#[test]
fn the_end_of_a_sealed_file_means_the_next_file_and_drops_what_was_cut_short() {
    let mut receiver: Receiver<u64> = Receiver::new();
    let mut queue = queue(1);
    assert!(queue.push_back(Placement::Disk(1)).is_ok());
    let whole = record(b"in the next file");
    receiver.feed(&whole[..7].to_vec());
    assert!(matches!(receiver.next_value(&mut queue), NextStep::NeedBytes));
    assert_eq!(receiver.end_of_file(true), EndOfFile::Rollover);
    // The bytes of the next file are read from their beginning.
    receiver.feed(&whole);
    match receiver.next_value(&mut queue) {
        NextStep::Encoded(raw) => assert_eq!(raw, b"in the next file".to_vec()),
        other => panic!("{:?}", other),
    }
}

#[test]
fn a_channel_has_a_megabyte_of_memory_and_large_files() {
    let (sender, mut receiver, mut queue, files_left) = channel::<u64>("defaults", 3);
    assert_eq!(sender.name(), "defaults");
    assert_eq!(queue.capacity(), 0x100_000 / 8);
    assert_eq!(queue.size(), 0);
    assert_eq!(files_left, usize::max_value());
    assert_eq!(queue.lock_back().sender_seq_num, 3);
    assert!(queue.lock_back().file_open);
    assert!(matches!(receiver.next_value(&mut queue), NextStep::Wait));

    // A file takes 256 megabytes and not a byte more.
    queue.lock_back().bytes_written = 0x10_000_000 - 8;
    let mut state = hopper::sender::SenderSync {
        file_open: true,
        bytes_written: 0x10_000_000 - 8,
        sender_seq_num: 3,
        total_disk_writes: 0,
    };
    let write = sender.plan_write(&vec![0; 4], &mut state, 1);
    assert_eq!(write.plan, hopper::sender::WritePlan::Append);
    let write = sender.plan_write(&vec![0; 5], &mut state, 1);
    assert_eq!(write.plan, hopper::sender::WritePlan::Rollover { seal: 3, create: 4 });
}

#[test]
fn a_channel_has_a_slot_at_least_and_a_megabyte_per_file_at_least() {
    let (sender, _, queue, files_left) =
        hopper::channel_with_explicit_capacity::<u64>("small", 0, 7, 32, 2);
    assert_eq!(queue.capacity(), 1);
    assert_eq!(files_left, 2);
    let mut state = hopper::sender::SenderSync {
        file_open: true,
        bytes_written: 0x100_000 - 8,
        sender_seq_num: 0,
        total_disk_writes: 0,
    };
    let write = sender.plan_write(&vec![0; 4], &mut state, 1);
    assert_eq!(write.plan, hopper::sender::WritePlan::Append);
    let write = sender.plan_write(&vec![0; 5], &mut state, 1);
    assert_eq!(write.plan, hopper::sender::WritePlan::Rollover { seal: 0, create: 1 });

    let (sender, _, queue, _) =
        hopper::channel_with_explicit_capacity::<u64>("larger", 0, 81, 0x200_000, 2);
    assert_eq!(queue.capacity(), 10);
    let mut state = hopper::sender::SenderSync {
        file_open: true,
        bytes_written: 0x200_000 - 8,
        sender_seq_num: 0,
        total_disk_writes: 0,
    };
    let write = sender.plan_write(&vec![0; 4], &mut state, 1);
    assert_eq!(write.plan, hopper::sender::WritePlan::Append);
    let write = sender.plan_write(&vec![0; 5], &mut state, 1);
    assert_eq!(write.plan, hopper::sender::WritePlan::Rollover { seal: 0, create: 1 });
}
