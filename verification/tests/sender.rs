use flate2::read::DeflateDecoder;
use flate2::write::DeflateEncoder;
use flate2::Compression;
use hopper::deque::Queue as Ring;
use hopper::private::{Placement, Queue};
use hopper::sender::{DiskWrite, SendStep, SenderSync, WriteOutcome, WritePlan};
use hopper::{Error, Sender};
use std::io::{Read, Write};

fn deflated(raw: &[u8]) -> Vec<u8> {
    let mut encoder = DeflateEncoder::new(Vec::new(), Compression::fast());
    encoder.write_all(raw).unwrap();
    encoder.finish().unwrap()
}

fn inflated(payload: &[u8]) -> Vec<u8> {
    let mut raw = Vec::new();
    DeflateDecoder::new(payload).read_to_end(&mut raw).unwrap();
    raw
}

fn failure() -> std::io::Error {
    std::io::Error::from(std::io::ErrorKind::PermissionDenied)
}

fn sync(file_open: bool, bytes_written: usize, sender_seq_num: usize, total_disk_writes: usize) -> SenderSync {
    SenderSync { file_open, bytes_written, sender_seq_num, total_disk_writes }
}

fn same(left: &SenderSync, right: &SenderSync) -> bool {
    left.file_open == right.file_open
        && left.bytes_written == right.bytes_written
        && left.sender_seq_num == right.sender_seq_num
        && left.total_disk_writes == right.total_disk_writes
}

// Sends a value that is bound for disk, as far as the plan of its record.
fn spill(
    sender: &mut Sender<u64>,
    queue: &mut Queue<u64>,
    value: u64,
    files_left: usize,
) -> (u64, DiskWrite) {
    let size = queue.size();
    let event = match sender.send(value, queue) {
        SendStep::Spill { event } => event,
        other => panic!("{:?}", other),
    };
    assert_eq!(queue.size(), size);
    let write = sender.write_to_disk(&vec![event as u8], queue.lock_back(), files_left);
    (event, write)
}

fn sender(max_disk_bytes: usize, capacity: usize) -> (Sender<u64>, Queue<u64>) {
    let mut queue: Queue<u64> = Ring::with_capacity(capacity);
    let sender = Sender::new("sink".to_string(), max_disk_bytes, &mut queue, 0);
    (sender, queue)
}

#[test]
fn a_new_sender_opens_the_file_it_is_given() {
    let mut queue: Queue<u64> = Ring::with_capacity(2);
    assert!(same(queue.lock_back(), &sync(false, 0, 0, 0)));
    let sender: Sender<u64> = Sender::new("sink".to_string(), 100, &mut queue, 17);
    assert_eq!(sender.name(), "sink");
    assert!(same(queue.lock_back(), &sync(true, 0, 17, 0)));
    assert_eq!(queue.size(), 0);
    let other = sender.clone();
    assert_eq!(other.name(), "sink");
}

#[test]
fn the_default_state_has_no_file_open() {
    assert!(same(&SenderSync::default(), &sync(false, 0, 0, 0)));
}

#[test]
fn a_record_that_fits_is_appended() {
    let (sender, _) = sender(100, 1);
    let mut state = sync(true, 60, 3, 0);
    let write = sender.plan_write(&vec![1u8; 36], &mut state, 5);
    assert_eq!(write.plan, WritePlan::Append);
    assert_eq!(write.frame.len(), 40);
    assert_eq!(&write.frame[..4], &[0, 0, 0, 36]);
    assert_eq!(&write.frame[4..], &[1u8; 36][..]);
    assert_eq!(write.bytes_after, 100);
    assert!(!write.flush);
    assert!(same(&state, &sync(true, 60, 3, 0)));
}

#[test]
fn a_record_that_would_pass_the_limit_starts_a_new_file() {
    let (sender, _) = sender(100, 1);
    let mut state = sync(true, 60, 3, 2);
    let write = sender.plan_write(&vec![1u8; 37], &mut state, 5);
    assert_eq!(write.plan, WritePlan::Rollover { seal: 3, create: 4 });
    assert_eq!(write.frame.len(), 41);
    assert_eq!(write.bytes_after, 41);
    assert!(write.flush);
    assert!(same(&state, &sync(true, 60, 4, 2)));
}

#[test]
fn a_record_larger_than_the_limit_has_a_file_of_its_own() {
    let (sender, _) = sender(100, 1);
    let mut state = sync(true, 0, 0, 0);
    let write = sender.plan_write(&vec![1u8; 500], &mut state, 1);
    assert_eq!(write.plan, WritePlan::Rollover { seal: 0, create: 1 });
    assert_eq!(write.bytes_after, 504);
}

#[test]
fn with_no_file_open_a_new_one_is_started() {
    let (sender, _) = sender(100, 1);
    let mut state = sync(false, 0, 9, 0);
    let write = sender.plan_write(&vec![], &mut state, 1);
    assert_eq!(write.plan, WritePlan::Rollover { seal: 9, create: 10 });
    assert_eq!(write.frame, vec![0, 0, 0, 0]);
    assert_eq!(write.bytes_after, 4);
    assert!(same(&state, &sync(false, 0, 10, 0)));
}

#[test]
fn with_no_file_left_the_record_is_refused_and_the_number_moves_on() {
    let (sender, _) = sender(100, 1);
    let mut state = sync(true, 60, 3, 1);
    let write = sender.plan_write(&vec![1u8; 37], &mut state, 0);
    assert_eq!(write.plan, WritePlan::Full { seal: 3 });
    assert!(write.frame.is_empty());
    assert!(!write.flush);
    assert!(same(&state, &sync(true, 60, 4, 1)));
    // A record that still fits is appended all the same.
    let write = sender.plan_write(&vec![1u8; 36], &mut state, 0);
    assert_eq!(write.plan, WritePlan::Append);
}

#[test]
fn the_sequence_number_wraps() {
    let (sender, _) = sender(100, 1);
    let mut state = sync(false, 0, usize::max_value(), 0);
    let write = sender.plan_write(&vec![], &mut state, 1);
    assert_eq!(write.plan, WritePlan::Rollover { seal: usize::max_value(), create: 0 });
    assert_eq!(state.sender_seq_num, 0);
}

#[test]
fn the_payload_on_disk_is_the_compressed_value() {
    let (sender, _) = sender(1 << 20, 1);
    let raw: Vec<u8> = (0..2000u32).map(|i| (i % 7) as u8).collect();
    let mut state = sync(true, 0, 0, 0);
    let write = sender.write_to_disk(&raw, &mut state, 1);
    assert_eq!(write.plan, WritePlan::Append);
    let payload = &write.frame[4..];
    assert_eq!(payload, &deflated(&raw)[..]);
    assert!(payload.len() < raw.len());
    assert_eq!(inflated(payload), raw);
    let len = payload.len() as u32;
    assert_eq!(&write.frame[..4], &len.to_be_bytes());
    assert_eq!(write.bytes_after, payload.len() + 4);
}

#[test]
fn a_value_goes_to_memory_while_there_is_room() {
    let (mut sender, mut queue) = sender(1 << 20, 2);
    match sender.send(10, &mut queue) {
        SendStep::Placed { must_wake } => assert!(must_wake),
        other => panic!("{:?}", other),
    }
    match sender.send(11, &mut queue) {
        SendStep::Placed { must_wake } => assert!(!must_wake),
        other => panic!("{:?}", other),
    }
    assert_eq!(queue.size(), 2);
    assert!(matches!(queue.pop_front(), Placement::Memory(10)));
    assert!(matches!(queue.pop_front(), Placement::Memory(11)));
}

#[test]
fn a_value_that_finds_no_room_is_bound_for_disk_and_queued_nowhere() {
    let (mut sender, mut queue) = sender(1 << 20, 1);
    assert!(matches!(sender.send(10, &mut queue), SendStep::Placed { .. }));
    let (event, write) = spill(&mut sender, &mut queue, 11, 7);
    assert_eq!(event, 11);
    assert_eq!(queue.size(), 1);
    assert_eq!(write.plan, WritePlan::Append);
    assert_eq!(&write.frame[4..], &deflated(&[11])[..]);
    assert!(!write.flush);
    assert_eq!(queue.size(), 1);
    assert_eq!(queue.lock_back().total_disk_writes, 0);

    // The first record on disk waits for its marker.
    let bytes_after = write.bytes_after;
    assert!(matches!(sender.finish_send(event, write, WriteOutcome::Written, &mut queue), Ok(false)));
    assert_eq!(queue.size(), 1);
    assert!(same(queue.lock_back(), &sync(true, bytes_after, 0, 1)));

    // From now on every value goes to disk, and is flushed.
    let (event, write) = spill(&mut sender, &mut queue, 12, 7);
    assert!(write.flush);
    assert!(matches!(sender.finish_send(event, write, WriteOutcome::Written, &mut queue), Ok(false)));
    assert_eq!(queue.lock_back().total_disk_writes, 2);
    assert_eq!(queue.size(), 1);

    // With room in the queue the marker follows the record at once.
    assert!(matches!(queue.pop_front(), Placement::Memory(10)));
    let (event, write) = spill(&mut sender, &mut queue, 13, 7);
    assert!(matches!(sender.finish_send(event, write, WriteOutcome::Written, &mut queue), Ok(true)));
    assert_eq!(queue.lock_back().total_disk_writes, 0);
    assert!(matches!(queue.pop_front(), Placement::Disk(3)));
    assert_eq!(queue.size(), 0);
}


#[test]
fn a_refused_value_comes_back_as_full() {
    let mut queue: Queue<u64> = Ring::with_capacity(1);
    let mut sender: Sender<u64> = Sender::new("sink".to_string(), 100, &mut queue, 4);
    queue.lock_back().file_open = false;
    assert!(matches!(sender.send(1, &mut queue), SendStep::Placed { .. }));
    let (event, write) = spill(&mut sender, &mut queue, 2, 0);
    assert_eq!(write.plan, WritePlan::Full { seal: 4 });
    match sender.finish_send(event, write, WriteOutcome::Written, &mut queue) {
        Err((2, Error::Full)) => {}
        other => panic!("{:?}", other),
    }
    assert_eq!(queue.size(), 1);
    assert!(same(queue.lock_back(), &sync(false, 0, 5, 0)));
}

#[test]
fn a_failed_write_comes_back_as_an_io_error() {
    let (mut sender, mut queue) = sender(1 << 20, 1);
    assert!(matches!(sender.send(1, &mut queue), SendStep::Placed { .. }));
    let (event, write) = spill(&mut sender, &mut queue, 2, 3);
    match sender.finish_send(event, write, WriteOutcome::WriteFailed(failure()), &mut queue) {
        Err((2, Error::IoError(e))) => assert_eq!(e.kind(), std::io::ErrorKind::PermissionDenied),
        other => panic!("{:?}", other),
    }
    assert_eq!(queue.size(), 1);
    assert!(same(queue.lock_back(), &sync(true, 0, 0, 0)));
}

#[test]
fn a_file_that_was_created_is_the_open_one_even_if_the_write_failed() {
    let mut queue: Queue<u64> = Ring::with_capacity(1);
    let mut sender: Sender<u64> = Sender::new("sink".to_string(), 100, &mut queue, 4);
    queue.lock_back().bytes_written = 99;
    assert!(matches!(sender.send(1, &mut queue), SendStep::Placed { .. }));

    let (event, write) = spill(&mut sender, &mut queue, 2, 3);
    assert_eq!(write.plan, WritePlan::Rollover { seal: 4, create: 5 });
    match sender.finish_send(event, write, WriteOutcome::CreateFailed(failure()), &mut queue) {
        Err((2, Error::IoError(_))) => {}
        other => panic!("{:?}", other),
    }
    assert!(same(queue.lock_back(), &sync(true, 99, 5, 0)));

    let (event, write) = spill(&mut sender, &mut queue, 2, 3);
    assert_eq!(write.plan, WritePlan::Rollover { seal: 5, create: 6 });
    match sender.finish_send(event, write, WriteOutcome::WriteFailed(failure()), &mut queue) {
        Err((2, Error::IoError(_))) => {}
        other => panic!("{:?}", other),
    }
    assert!(same(queue.lock_back(), &sync(true, 0, 6, 0)));

    let (event, write) = spill(&mut sender, &mut queue, 2, 3);
    assert_eq!(write.plan, WritePlan::Append);
    let bytes_after = write.bytes_after;
    assert!(sender.finish_send(event, write, WriteOutcome::Written, &mut queue).is_ok());
    assert!(same(queue.lock_back(), &sync(true, bytes_after, 6, 1)));
}

#[test]
fn flush_announces_what_waits() {
    let (mut sender, mut queue) = sender(1 << 20, 2);
    assert!(matches!(sender.flush(&mut queue), Ok(false)));
    assert_eq!(queue.size(), 0);

    queue.lock_back().total_disk_writes = 5;
    assert!(matches!(sender.flush(&mut queue), Ok(true)));
    assert_eq!(queue.lock_back().total_disk_writes, 0);
    assert_eq!(queue.size(), 1);

    queue.lock_back().total_disk_writes = 2;
    assert!(matches!(sender.flush(&mut queue), Ok(false)));
    assert_eq!(queue.size(), 2);

    queue.lock_back().total_disk_writes = 1;
    assert!(matches!(sender.flush(&mut queue), Err(Error::NoFlush)));
    assert_eq!(queue.lock_back().total_disk_writes, 1);
    assert_eq!(queue.size(), 2);
    assert!(matches!(queue.pop_front(), Placement::Disk(5)));
    assert!(matches!(queue.pop_front(), Placement::Disk(2)));
}
