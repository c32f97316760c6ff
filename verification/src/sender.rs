//! The sending side: it decides, value by value, whether a value stays in
//! memory or goes to a queue file, and keeps the order of the two apart by
//! the run markers it pushes.
//!
//! Nothing here touches a file. For a value bound for disk the caller gets a
//! [`DiskWrite`], which says what is to be sealed, created and appended; the
//! caller does that and tells [`Sender::finish_send`] how it went.

use crate::deque;
use crate::model::{is_producer_step, Step};
use crate::payload::{deflate, deflated, inflated};
use crate::private::{next_seq, successor, Placement, Queue};
use crate::record::{
    after_first, first_payload, frame, framed, lemma_framed_reads_back, starts_with_record,
    MAX_PAYLOAD_LEN, PAYLOAD_LEN_BYTES,
};
use crate::Error;
use std::marker::PhantomData;
use vstd::prelude::*;

verus! {

/// The handle of a producer. It holds what never changes; what all
/// producers of a queue share lives at the back of the queue.
#[derive(Debug)]
pub struct Sender<T> {
    name: String,
    max_disk_bytes: usize,
    resource_type: PhantomData<T>,
}

/// What the producers of one queue share.
#[derive(Debug)]
pub struct SenderSync {
    /// Whether a queue file is open for appending.
    pub file_open: bool,
    /// The bytes appended to the open file so far.
    pub bytes_written: usize,
    /// The sequence number of the file that was opened, or asked for, last.
    pub sender_seq_num: usize,
    /// The records written since the last run marker went into the queue;
    /// zero while values go to memory.
    pub total_disk_writes: usize,
}

impl Default for SenderSync {
    fn default() -> (r: Self)
        ensures
            r == (SenderSync {
                file_open: false,
                bytes_written: 0,
                sender_seq_num: 0,
                total_disk_writes: 0,
            }),
    {
        SenderSync { file_open: false, bytes_written: 0, sender_seq_num: 0, total_disk_writes: 0 }
    }
}

/// Where the next record goes.
#[derive(Debug, Clone, Copy, PartialEq, Eq, Structural)]
pub enum WritePlan {
    /// Behind the last record of the open file.
    Append,
    /// Into a new file: `seal` is made read-only first, then `create` is
    /// opened, and the record is its first.
    Rollover { seal: usize, create: usize },
    /// Nowhere: `seal` is made read-only, and no file may follow it.
    Full { seal: usize },
    /// Nowhere: the payload is longer than a record can say.
    Oversize,
}

/// The disk work that one value asks for, in the order in which it is done:
/// what `plan` says, then `frame` appended, then the file flushed if `flush`.
#[derive(Debug)]
pub struct DiskWrite {
    pub plan: WritePlan,
    /// The record to append; empty where the plan writes nothing.
    pub frame: Vec<u8>,
    /// The size of the file once the record is in it.
    pub bytes_after: usize,
    /// Whether the file is flushed after the record.
    pub flush: bool,
}

/// How the disk work went.
#[derive(Debug)]
pub enum WriteOutcome {
    /// All of it was done.
    Written,
    /// The new file could not be opened; nothing was written.
    CreateFailed(std::io::Error),
    /// The record could not be appended to the file, old or new.
    WriteFailed(std::io::Error),
}

/// What became of a value handed to [`Sender::send`].
#[derive(Debug)]
pub enum SendStep<T> {
    /// It is in memory. A waiting reader is to be woken if `must_wake`.
    Placed { must_wake: bool },
    /// It found no room in memory and comes back, bound for disk.
    Spill { event: T },
}

/// Whether a record with a payload of `payload_len` bytes has to start a new
/// file: none is open, or the open one would grow past `max_disk_bytes`.
pub open spec fn rolls_over(sync: SenderSync, max_disk_bytes: usize, payload_len: nat) -> bool {
    !sync.file_open || sync.bytes_written + payload_len + PAYLOAD_LEN_BYTES > max_disk_bytes
}

/// Whether a payload of `payload_len` bytes is too long for a record: its
/// length does not fit the four bytes in front of it, or the record's own
/// length does not fit the machine.
pub open spec fn oversize(payload_len: nat) -> bool {
    payload_len > MAX_PAYLOAD_LEN || payload_len + PAYLOAD_LEN_BYTES > usize::MAX
}

/// Where a record with a payload of `payload_len` bytes goes, with
/// `files_left` files still allowed.
pub open spec fn planned(
    sync: SenderSync,
    max_disk_bytes: usize,
    payload_len: nat,
    files_left: usize,
) -> WritePlan {
    if oversize(payload_len) {
        WritePlan::Oversize
    } else if rolls_over(sync, max_disk_bytes, payload_len) {
        if files_left == 0 {
            WritePlan::Full { seal: sync.sender_seq_num }
        } else {
            WritePlan::Rollover { seal: sync.sender_seq_num, create: next_seq(sync.sender_seq_num) }
        }
    } else {
        WritePlan::Append
    }
}

/// Whether `plan` appends a record.
pub open spec fn writes(plan: WritePlan) -> bool {
    plan is Append || plan is Rollover
}

/// The shared state once `plan` is made: leaving the open file moves the
/// sequence number on, whether or not a new file may follow.
pub open spec fn after_plan(sync: SenderSync, plan: WritePlan) -> SenderSync {
    if plan is Rollover || plan is Full {
        SenderSync { sender_seq_num: next_seq(sync.sender_seq_num), ..sync }
    } else {
        sync
    }
}

/// The size of the file once the planned record is in it.
pub open spec fn size_after(sync: SenderSync, plan: WritePlan, payload_len: nat) -> nat {
    match plan {
        WritePlan::Append => (sync.bytes_written + payload_len + PAYLOAD_LEN_BYTES) as nat,
        WritePlan::Rollover { .. } => (payload_len + PAYLOAD_LEN_BYTES) as nat,
        _ => sync.bytes_written as nat,
    }
}

/// Whether the record is on disk.
pub open spec fn took_effect(plan: WritePlan, outcome: WriteOutcome) -> bool {
    writes(plan) && outcome is Written
}

/// The shared state once the disk work was tried: a file that was created
/// is the open one from then on, written to or not.
pub open spec fn settled(sync: SenderSync, write: DiskWrite, outcome: WriteOutcome) -> SenderSync {
    match (write.plan, outcome) {
        (WritePlan::Append, WriteOutcome::Written) => SenderSync {
            bytes_written: write.bytes_after,
            ..sync
        },
        (WritePlan::Rollover { .. }, WriteOutcome::Written) => SenderSync {
            file_open: true,
            bytes_written: write.bytes_after,
            ..sync
        },
        (WritePlan::Rollover { .. }, WriteOutcome::WriteFailed(_)) => SenderSync {
            file_open: true,
            bytes_written: 0,
            ..sync
        },
        _ => sync,
    }
}

/// Whether `write` is the disk work for a record with `payload`, planned in
/// the state `sync`.
pub open spec fn is_write_of(
    write: DiskWrite,
    payload: Seq<u8>,
    sync: SenderSync,
    max_disk_bytes: usize,
    files_left: usize,
) -> bool {
    &&& write.plan == planned(sync, max_disk_bytes, payload.len(), files_left)
    &&& write.frame@ == if writes(write.plan) {
        framed(payload)
    } else {
        Seq::<u8>::empty()
    }
    &&& write.bytes_after == size_after(sync, write.plan, payload.len())
    &&& write.flush == (writes(write.plan) && sync.total_disk_writes > 0)
}

/// Whether `frame` is one whole record that reads back as the encoded
/// value `raw`.
pub open spec fn carries(frame: Seq<u8>, raw: Seq<u8>) -> bool {
    &&& starts_with_record(frame)
    &&& after_first(frame) == Seq::<u8>::empty()
    &&& inflated(first_payload(frame)) == Some(raw)
}

/// Whether a value handed over now goes into memory: no record waits for
/// its marker, and a slot is free.
pub open spec fn goes_to_memory<T>(entries: Seq<Placement<T>>, sync: SenderSync, capacity: nat) -> bool {
    sync.total_disk_writes == 0 && entries.len() < capacity
}

/// Whether the marker of the waiting records can go into the queue.
pub open spec fn marker_fits<T>(entries: Seq<Placement<T>>, sync: SenderSync, capacity: nat) -> bool {
    sync.total_disk_writes > 0 && entries.len() < capacity
}

/// The shared state with `n` records waiting for their marker.
pub open spec fn with_writes(sync: SenderSync, n: usize) -> SenderSync {
    SenderSync { total_disk_writes: n, ..sync }
}

impl<T> Sender<T> {
    /// The name that the sender was made with.
    pub closed spec fn spec_name(&self) -> Seq<char> {
        self.name@
    }

    /// The size that a queue file is not to grow past.
    pub closed spec fn spec_max_disk_bytes(&self) -> usize {
        self.max_disk_bytes
    }

    /// A sender for the queue whose open file has the number `seq_num`.
    pub fn new(name: String, max_disk_bytes: usize, mem_buffer: &mut Queue<T>, seq_num: usize) -> (r:
        Sender<T>)
        ensures
            r.spec_name() == name@,
            r.spec_max_disk_bytes() == max_disk_bytes,
            final(mem_buffer).wf() == old(mem_buffer).wf(),
            final(mem_buffer).spec_capacity() == old(mem_buffer).spec_capacity(),
            final(mem_buffer)@ == old(mem_buffer)@,
            final(mem_buffer).back() == (SenderSync {
                file_open: true,
                sender_seq_num: seq_num,
                ..old(mem_buffer).back()
            }),
    {
        let sync = mem_buffer.lock_back();
        sync.file_open = true;
        sync.sender_seq_num = seq_num;
        Sender { name, max_disk_bytes, resource_type: PhantomData }
    }

    /// The sender's name.
    pub fn name(&self) -> (r: &str)
        ensures
            r@ == self.spec_name(),
    {
        self.name.as_str()
    }

    /// Decides where a record with `payload` goes and builds it. Leaving the
    /// open file moves the sequence number on at once, before anything is
    /// known of the file that follows.
    pub fn plan_write(&self, payload: &Vec<u8>, sync: &mut SenderSync, files_left: usize) -> (write:
        DiskWrite)
        ensures
            is_write_of(write, payload@, *old(sync), self.spec_max_disk_bytes(), files_left),
            *final(sync) == after_plan(*old(sync), write.plan),
    {
        let payload_len = payload.len();
        if payload_len > MAX_PAYLOAD_LEN {
            return DiskWrite {
                plan: WritePlan::Oversize,
                frame: Vec::new(),
                bytes_after: sync.bytes_written,
                flush: false,
            };
        }
        let record_len: usize = match payload_len.checked_add(PAYLOAD_LEN_BYTES) {
            Some(n) => n,
            None => {
                return DiskWrite {
                    plan: WritePlan::Oversize,
                    frame: Vec::new(),
                    bytes_after: sync.bytes_written,
                    flush: false,
                };
            },
        };
        let fits = match sync.bytes_written.checked_add(record_len) {
            Some(n) => n <= self.max_disk_bytes,
            None => false,
        };
        let flush = sync.total_disk_writes > 0;
        if fits && sync.file_open {
            let bytes_after: usize = sync.bytes_written + record_len;
            DiskWrite { plan: WritePlan::Append, frame: frame(payload), bytes_after, flush }
        } else {
            let seal = sync.sender_seq_num;
            let create = successor(seal);
            sync.sender_seq_num = create;
            if files_left == 0 {
                DiskWrite {
                    plan: WritePlan::Full { seal },
                    frame: Vec::new(),
                    bytes_after: sync.bytes_written,
                    flush: false,
                }
            } else {
                DiskWrite {
                    plan: WritePlan::Rollover { seal, create },
                    frame: frame(payload),
                    bytes_after: record_len,
                    flush,
                }
            }
        }
    }

    /// Compresses `raw`, the encoded form of a value bound for disk, and
    /// plans the record that carries it: see [`Sender::plan_write`], which
    /// does the planning.
    pub fn write_to_disk(&self, raw: &Vec<u8>, sync: &mut SenderSync, files_left: usize) -> (write:
        DiskWrite)
        ensures
            is_write_of(
                write,
                deflated(raw@),
                *old(sync),
                self.spec_max_disk_bytes(),
                files_left,
            ),
            writes(write.plan) ==> carries(write.frame@, raw@),
            *final(sync) == after_plan(*old(sync), write.plan),
    {
        let payload = deflate(raw);
        proof {
            if payload@.len() <= MAX_PAYLOAD_LEN {
                lemma_framed_reads_back(payload@, Seq::empty());
                assert(framed(payload@) + Seq::<u8>::empty() =~= framed(payload@));
            }
        }
        self.plan_write(&payload, sync, files_left)
    }

    /// Takes `event` into memory if it can.
    ///
    /// While no record waits for its marker the value goes into memory if a
    /// slot is free. Otherwise it comes back, bound for disk, and nothing
    /// has changed: the caller encodes it, has the disk work planned by
    /// [`Sender::write_to_disk`], carries that out and settles the value
    /// with [`Sender::finish_send`].
    ///
    /// For the queue as a whole, a value that is placed is the step `Place`
    /// of [`crate::model`].
    pub fn send(&mut self, event: T, mem_buffer: &mut Queue<T>) -> (r: SendStep<T>)
        requires
            old(mem_buffer).wf(),
        ensures
            *final(self) == *old(self),
            final(mem_buffer).wf(),
            final(mem_buffer).spec_capacity() == old(mem_buffer).spec_capacity(),
            final(mem_buffer).back() == old(mem_buffer).back(),
            goes_to_memory(old(mem_buffer)@, old(mem_buffer).back(), old(mem_buffer).spec_capacity())
                ==> {
                &&& r == SendStep::<T>::Placed { must_wake: old(mem_buffer)@.len() == 0 }
                &&& final(mem_buffer)@ == old(mem_buffer)@.push(Placement::Memory(event))
                &&& is_producer_step(*old(mem_buffer), Step::Place(event), *final(mem_buffer))
            },
            !goes_to_memory(
                old(mem_buffer)@,
                old(mem_buffer).back(),
                old(mem_buffer).spec_capacity(),
            ) ==> r == (SendStep::<T>::Spill { event }) && final(mem_buffer)@ == old(mem_buffer)@,
    {
        if mem_buffer.lock_back().total_disk_writes == 0 {
            match mem_buffer.push_back(Placement::Memory(event)) {
                Ok(must_wake) => SendStep::Placed { must_wake },
                Err(deque::Error::Full(placed_event)) => SendStep::Spill {
                    event: placed_event.extract().unwrap(),
                },
            }
        } else {
            SendStep::Spill { event }
        }
    }

    /// Settles a value that was bound for disk, once the disk work was tried.
    ///
    /// Where the record is not on disk the value comes back with the reason,
    /// and nothing is queued. Where it is, one more record waits for its
    /// marker; if records waited before, the marker for all of them goes into
    /// the queue now, if a slot is free. The flag that comes with success
    /// says whether a waiting reader is to be woken.
    ///
    /// For the queue as a whole, a value whose record is on disk is the step
    /// `Spill` of [`crate::model`], and one that comes back is the step
    /// `Refuse`.
    pub fn finish_send(
        &self,
        event: T,
        write: DiskWrite,
        outcome: WriteOutcome,
        mem_buffer: &mut Queue<T>,
    ) -> (r: Result<bool, (T, Error)>)
        requires
            old(mem_buffer).wf(),
            old(mem_buffer).back().total_disk_writes < usize::MAX,
        ensures
            final(mem_buffer).wf(),
            final(mem_buffer).spec_capacity() == old(mem_buffer).spec_capacity(),
            !took_effect(write.plan, outcome) ==> {
                &&& r matches Err((returned, error))
                &&& returned == event
                &&& is_refusal(error, write.plan, outcome)
                &&& final(mem_buffer)@ == old(mem_buffer)@
                &&& final(mem_buffer).back() == settled(old(mem_buffer).back(), write, outcome)
                &&& !goes_to_memory(
                    old(mem_buffer)@,
                    old(mem_buffer).back(),
                    old(mem_buffer).spec_capacity(),
                ) ==> is_producer_step(*old(mem_buffer), Step::Refuse, *final(mem_buffer))
            },
            took_effect(write.plan, outcome) ==> {
                let sync = settled(old(mem_buffer).back(), write, outcome);
                let waiting = (old(mem_buffer).back().total_disk_writes + 1) as usize;
                if marker_fits(
                    old(mem_buffer)@,
                    old(mem_buffer).back(),
                    old(mem_buffer).spec_capacity(),
                ) {
                    &&& r == Ok::<bool, (T, Error)>(old(mem_buffer)@.len() == 0)
                    &&& final(mem_buffer)@ == old(mem_buffer)@.push(Placement::Disk(waiting))
                    &&& final(mem_buffer).back() == with_writes(sync, 0)
                } else {
                    &&& r == Ok::<bool, (T, Error)>(false)
                    &&& final(mem_buffer)@ == old(mem_buffer)@
                    &&& final(mem_buffer).back() == with_writes(sync, waiting)
                }
            },
            took_effect(write.plan, outcome) && !goes_to_memory(
                old(mem_buffer)@,
                old(mem_buffer).back(),
                old(mem_buffer).spec_capacity(),
            ) ==> forall|payload: Seq<u8>| #[trigger]
                is_producer_step(*old(mem_buffer), Step::Spill(payload), *final(mem_buffer)),
    {
        let disk_mode = mem_buffer.lock_back().total_disk_writes > 0;
        let sync = mem_buffer.lock_back();
        let failure: Option<Error> = match write.plan {
            WritePlan::Full { .. } => Some(Error::Full),
            WritePlan::Oversize => Some(Error::IoError(invalid_input())),
            WritePlan::Append => match outcome {
                WriteOutcome::Written => {
                    sync.bytes_written = write.bytes_after;
                    None
                },
                WriteOutcome::CreateFailed(e) => Some(Error::IoError(e)),
                WriteOutcome::WriteFailed(e) => Some(Error::IoError(e)),
            },
            WritePlan::Rollover { .. } => match outcome {
                WriteOutcome::Written => {
                    sync.file_open = true;
                    sync.bytes_written = write.bytes_after;
                    None
                },
                WriteOutcome::CreateFailed(e) => Some(Error::IoError(e)),
                WriteOutcome::WriteFailed(e) => {
                    sync.file_open = true;
                    sync.bytes_written = 0;
                    Some(Error::IoError(e))
                },
            },
        };
        if let Some(error) = failure {
            return Err((event, error));
        }
        sync.total_disk_writes = sync.total_disk_writes + 1;
        if !disk_mode {
            return Ok(false);
        }
        let waiting = mem_buffer.lock_back().total_disk_writes;
        match mem_buffer.push_back(Placement::Disk(waiting)) {
            Ok(must_wake) => {
                mem_buffer.lock_back().total_disk_writes = 0;
                Ok(must_wake)
            },
            Err(_) => Ok(false),
        }
    }

    /// Announces the records that wait for their marker.
    ///
    /// With none waiting there is nothing to do. Otherwise the marker for
    /// all of them goes into the queue if a slot is free, and none waits any
    /// more; with the queue full it is `NoFlush`, and nothing has changed. The
    /// flag that comes with success says whether a waiting reader is to be
    /// woken. The caller flushes the open file first.
    ///
    /// For the queue as a whole this is the step `Flush` of [`crate::model`].
    pub fn flush(&mut self, mem_buffer: &mut Queue<T>) -> (r: Result<bool, Error>)
        requires
            old(mem_buffer).wf(),
        ensures
            *final(self) == *old(self),
            final(mem_buffer).wf(),
            final(mem_buffer).spec_capacity() == old(mem_buffer).spec_capacity(),
            old(mem_buffer).back().total_disk_writes == 0 ==> {
                &&& r == Ok::<bool, Error>(false)
                &&& final(mem_buffer)@ == old(mem_buffer)@
                &&& final(mem_buffer).back() == old(mem_buffer).back()
            },
            marker_fits(old(mem_buffer)@, old(mem_buffer).back(), old(mem_buffer).spec_capacity())
                ==> {
                &&& r == Ok::<bool, Error>(old(mem_buffer)@.len() == 0)
                &&& final(mem_buffer)@ == old(mem_buffer)@.push(
                    Placement::Disk(old(mem_buffer).back().total_disk_writes),
                )
                &&& final(mem_buffer).back() == with_writes(old(mem_buffer).back(), 0)
            },
            old(mem_buffer).back().total_disk_writes > 0 && old(mem_buffer)@.len() >= old(
                mem_buffer,
            ).spec_capacity() ==> {
                &&& r == Err::<bool, Error>(Error::NoFlush)
                &&& final(mem_buffer)@ == old(mem_buffer)@
                &&& final(mem_buffer).back() == old(mem_buffer).back()
            },
            is_producer_step(*old(mem_buffer), Step::Flush, *final(mem_buffer)),
    {
        let waiting = mem_buffer.lock_back().total_disk_writes;
        if waiting == 0 {
            return Ok(false);
        }
        match mem_buffer.push_back(Placement::Disk(waiting)) {
            Ok(must_wake) => {
                mem_buffer.lock_back().total_disk_writes = 0;
                Ok(must_wake)
            },
            Err(_) => Err(Error::NoFlush),
        }
    }
}

impl<T> Clone for Sender<T> {
    /// Another handle of the same producer side.
    fn clone(&self) -> (r: Self)
        ensures
            r == *self,
    {
        Sender {
            name: self.name.clone(),
            max_disk_bytes: self.max_disk_bytes,
            resource_type: PhantomData,
        }
    }
}

/// Calls `std::io::Error::from` on `std::io::ErrorKind::InvalidInput`, for
/// a record that cannot be written. Nothing is claimed of the error.
#[verifier::external_body]
fn invalid_input() -> std::io::Error {
    std::io::Error::from(std::io::ErrorKind::InvalidInput)
}

/// A new file is asked for only while one may be created, and it follows
/// the file that is sealed for it.
pub proof fn lemma_rollover_within_budget(
    sync: SenderSync,
    max_disk_bytes: usize,
    payload_len: nat,
    files_left: usize,
)
    ensures
        planned(sync, max_disk_bytes, payload_len, files_left) matches WritePlan::Rollover {
            seal,
            create,
        } ==> files_left > 0 && seal == sync.sender_seq_num && create == next_seq(seal),
        files_left == 0 ==> !(planned(sync, max_disk_bytes, payload_len, files_left) is Rollover),
{
}

/// A queue file grows past its limit by no more than the one record that
/// opens it: a record is appended only where the file stays within the
/// limit, and a new file starts with a single record.
pub proof fn lemma_file_size_bounded(
    sync: SenderSync,
    max_disk_bytes: usize,
    payload_len: nat,
    files_left: usize,
)
    ensures
        ({
            let plan = planned(sync, max_disk_bytes, payload_len, files_left);
            &&& plan is Append ==> size_after(sync, plan, payload_len) <= max_disk_bytes
            &&& plan is Rollover ==> size_after(sync, plan, payload_len) == payload_len
                + PAYLOAD_LEN_BYTES
            &&& writes(plan) ==> size_after(sync, plan, payload_len) <= max_disk_bytes + payload_len
                + PAYLOAD_LEN_BYTES
        }),
{
}

/// Whether `error` is the reason that comes with a value whose record is
/// not on disk.
pub open spec fn is_refusal(error: Error, plan: WritePlan, outcome: WriteOutcome) -> bool {
    match plan {
        WritePlan::Full { .. } => error == Error::Full,
        WritePlan::Oversize => error is IoError,
        _ => match outcome {
            WriteOutcome::CreateFailed(e) => error == Error::IoError(e),
            WriteOutcome::WriteFailed(e) => error == Error::IoError(e),
            WriteOutcome::Written => false,
        },
    }
}

} // verus!
