//! A multi-producer, single-consumer queue that holds a bounded number of
//! values in memory and pages the overflow to append-only queue files.
//!
//! Values that find no room in memory are written, in order, to numbered
//! files; a marker in the memory queue tells the consumer how many records
//! to read before it returns to memory. A file that has grown to its limit
//! is sealed and followed by the next; the consumer removes a sealed file
//! once it has read it.
//!
//! This crate decides and keeps count; it opens, reads and writes no file
//! and takes no lock. Its callers hold the queue behind their lock, encode
//! the values that go to disk, do the disk work that it asks for, and say
//! how that went.

use vstd::prelude::*;

pub mod common;
pub mod deque;
pub mod files;
pub mod model;
pub mod payload;
pub mod private;
pub mod receiver;
pub mod record;
pub mod sender;

pub use self::receiver::Receiver;
pub use self::sender::Sender;

verus! {

/// `std::io::Error`, carried from the disk work to the caller and never
/// looked into.
#[verifier::external_type_specification]
#[verifier::external_body]
pub struct ExIoError(std::io::Error);

/// What can go wrong for a user of the queue.
#[derive(Debug)]
pub enum Error {
    /// The directory given for the queue files does not exist.
    NoSuchDirectory,
    /// Reading or writing a queue file failed.
    IoError(std::io::Error),
    /// The disk run could not be announced: the memory buffer is full.
    NoFlush,
    /// The value was refused: no further queue file may be created.
    Full,
}

/// The bytes of memory that a queue may fill unless told otherwise.
pub const DEFAULT_MEMORY_BYTES: usize = 0x100_000;

/// The size that a queue file may reach unless told otherwise.
pub const DEFAULT_DISK_BYTES: usize = 0x10_000_000;

/// The least size that a queue file is allowed to reach.
pub const MIN_DISK_BYTES: usize = 0x100_000;

/// How many values fit into `max_memory_bytes` at `item_size` bytes each;
/// there is always room for one.
pub open spec fn slot_count(max_memory_bytes: usize, item_size: nat) -> nat {
    if max_memory_bytes as nat / item_size >= 1 {
        max_memory_bytes as nat / item_size
    } else {
        1
    }
}

/// The size that a queue file may reach when `max_disk_bytes` is asked for.
pub open spec fn file_limit(max_disk_bytes: usize) -> usize {
    if max_disk_bytes >= MIN_DISK_BYTES {
        max_disk_bytes
    } else {
        MIN_DISK_BYTES
    }
}

/// The two sides of a queue named `name`, the queue between them and the
/// number of queue files that may still be created, with a megabyte of
/// memory, queue files of 256 megabytes and no limit on their number.
///
/// The file numbered `seq_num` is the one that is open for writing.
pub fn channel<T>(name: &str, seq_num: usize) -> (r: (
    Sender<T>,
    Receiver<T>,
    private::Queue<T>,
    usize,
))
    requires
        vstd::layout::size_of::<T>() > 0,
    ensures
        is_channel(
            r,
            name@,
            seq_num,
            DEFAULT_MEMORY_BYTES,
            DEFAULT_DISK_BYTES,
            usize::MAX,
            vstd::layout::size_of::<T>(),
        ),
{
    channel_with_explicit_capacity(
        name,
        seq_num,
        DEFAULT_MEMORY_BYTES,
        DEFAULT_DISK_BYTES,
        usize::MAX,
    )
}

/// The two sides of a queue named `name`, the queue between them and the
/// number of queue files that may still be created.
///
/// The queue has a slot for each value that fits into `max_memory_bytes`,
/// and one at least. A queue file may reach `max_disk_bytes`, and a megabyte
/// at least. `max_disk_files` files may be created on top of the one
/// numbered `seq_num`, which is open for writing.
pub fn channel_with_explicit_capacity<T>(
    name: &str,
    seq_num: usize,
    max_memory_bytes: usize,
    max_disk_bytes: usize,
    max_disk_files: usize,
) -> (r: (Sender<T>, Receiver<T>, private::Queue<T>, usize))
    requires
        vstd::layout::size_of::<T>() > 0,
    ensures
        is_channel(
            r,
            name@,
            seq_num,
            max_memory_bytes,
            max_disk_bytes,
            max_disk_files,
            vstd::layout::size_of::<T>(),
        ),
{
    let sz = core::mem::size_of::<T>();
    let max_disk_bytes = if max_disk_bytes < MIN_DISK_BYTES {
        MIN_DISK_BYTES
    } else {
        max_disk_bytes
    };
    let slots = max_memory_bytes / sz;
    let total_memory_limit: usize = if slots < 1 {
        1
    } else {
        slots
    };
    let mut q: private::Queue<T> = deque::Queue::with_capacity(total_memory_limit);
    let sender = Sender::new(name.to_owned(), max_disk_bytes, &mut q, seq_num);
    let receiver = Receiver::new();
    (sender, receiver, q, max_disk_files)
}

/// How many of `entries` are values held in memory.
pub open spec fn in_memory<T>(entries: Seq<private::Placement<T>>) -> nat {
    entries.filter(|entry: private::Placement<T>| entry is Memory).len()
}

/// A queue made for `max_memory_bytes` never holds more values in memory
/// than fit into that many bytes, provided that one fits at all.
pub proof fn lemma_memory_bounded<T>(
    mem_buffer: private::Queue<T>,
    max_memory_bytes: usize,
    item_size: nat,
)
    requires
        mem_buffer.wf(),
        mem_buffer.spec_capacity() == slot_count(max_memory_bytes, item_size),
        0 < item_size <= max_memory_bytes,
    ensures
        in_memory(mem_buffer@) <= max_memory_bytes as nat / item_size,
{
    mem_buffer.lemma_bounded();
    mem_buffer@.lemma_filter_len(|entry: private::Placement<T>| entry is Memory);
    vstd::arithmetic::div_mod::lemma_div_is_ordered(
        item_size as int,
        max_memory_bytes as int,
        item_size as int,
    );
    vstd::arithmetic::div_mod::lemma_div_basics(item_size as int);
}

/// Whether `parts` are the parts of a fresh queue made with these settings
/// for values of `item_size` bytes.
pub open spec fn is_channel<T>(
    parts: (Sender<T>, Receiver<T>, private::Queue<T>, usize),
    name: Seq<char>,
    seq_num: usize,
    max_memory_bytes: usize,
    max_disk_bytes: usize,
    max_disk_files: usize,
    item_size: nat,
) -> bool {
    &&& parts.0.spec_name() == name
    &&& parts.0.spec_max_disk_bytes() == file_limit(max_disk_bytes)
    &&& parts.1.owed() == 0
    &&& parts.1.buffered() == Seq::<u8>::empty()
    &&& parts.2.wf()
    &&& parts.2@ == Seq::<private::Placement<T>>::empty()
    &&& parts.2.spec_capacity() == slot_count(max_memory_bytes, item_size)
    &&& parts.2.back() == (sender::SenderSync {
        file_open: true,
        bytes_written: 0,
        sender_seq_num: seq_num,
        total_disk_writes: 0,
    })
    &&& parts.3 == max_disk_files
}

} // verus!
