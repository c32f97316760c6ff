//! The receiving side: it takes placements off the front of the queue and,
//! for a run marker, reads that many records before it goes back to the
//! queue.
//!
//! Nothing here touches a file. The bytes of the queue file that is being
//! read are fed in as they become available, and records are cut from them
//! here; what is to happen at the end of a file is decided here and done by
//! the caller.

use crate::model::{is_step, Step};
use crate::payload::{inflate, inflated};
use crate::private::{Placement, Queue};
use crate::record::{after_first, first_payload, starts_with_record, take_record};
use std::marker::PhantomData;
use vstd::prelude::*;

verus! {

/// The consumer of a queue.
#[derive(Debug)]
pub struct Receiver<T> {
    disk_writes_to_read: usize,
    buffer: Vec<u8>,
    resource_type: PhantomData<T>,
}

/// What an attempt to read one record from disk came to.
#[derive(Debug)]
pub enum ReadStep {
    /// The encoded form of the next value.
    Record(Vec<u8>),
    /// No whole record has been fed yet: more of the file is wanted.
    NeedBytes,
    /// A record was there, and its payload is no compressed stream.
    Corrupt,
}

/// What an attempt to take the next value came to.
#[derive(Debug)]
pub enum NextStep<T> {
    /// The next value, from memory.
    Value(T),
    /// The encoded form of the next value, from disk.
    Encoded(Vec<u8>),
    /// Nothing is queued: the caller waits for a push.
    Wait,
    /// The next value is on disk and no whole record has been fed yet.
    NeedBytes,
    /// The next record's payload is no compressed stream.
    Corrupt,
}

/// What the end of the file that is being read means.
#[derive(Debug, Clone, Copy, PartialEq, Eq, Structural)]
pub enum EndOfFile {
    /// The file is still written to: more may come, the caller tries again.
    Retry,
    /// The file is sealed and read to its end: it is removed, one more file
    /// is allowed, and its successor is read from now on.
    Rollover,
}

/// How many markers of empty runs stand at the front of `entries`.
pub open spec fn empty_runs<T>(entries: Seq<Placement<T>>) -> nat
    decreases entries.len(),
{
    if entries.len() > 0 && entries[0] == Placement::<T>::Disk(0) {
        1 + empty_runs(entries.drop_first())
    } else {
        0
    }
}

/// Markers of empty runs up to `count`, and none at `count`, make `count`
/// the number of those at the front.
proof fn lemma_empty_runs<T>(entries: Seq<Placement<T>>, count: nat)
    requires
        count <= entries.len(),
        forall|i: int| 0 <= i < count ==> entries[i] == Placement::<T>::Disk(0),
        count < entries.len() ==> entries[count as int] != Placement::<T>::Disk(0),
    ensures
        empty_runs(entries) == count,
    decreases entries.len(),
{
    if count > 0 {
        let rest = entries.drop_first();
        assert forall|i: int| 0 <= i < count - 1 implies rest[i] == Placement::<T>::Disk(0) by {
            assert(rest[i] == entries[i + 1]);
        }
        lemma_empty_runs(rest, (count - 1) as nat);
    }
}

/// Whether `step` is what reading one of `owed` records from `buffered`
/// comes to, leaving `owed_after` records owed and `buffered_after` fed.
pub open spec fn is_read_of<T>(
    step: NextStep<T>,
    owed: nat,
    buffered: Seq<u8>,
    owed_after: nat,
    buffered_after: Seq<u8>,
) -> bool {
    if starts_with_record(buffered) {
        &&& buffered_after == after_first(buffered)
        &&& match inflated(first_payload(buffered)) {
            Some(raw) => {
                &&& step matches NextStep::Encoded(bytes)
                &&& bytes@ == raw
                &&& owed_after == owed - 1
            },
            None => step is Corrupt && owed_after == owed,
        }
    } else {
        step is NeedBytes && owed_after == owed && buffered_after == buffered
    }
}

impl<T> Receiver<T> {
    /// How many records are to be read before the queue is looked at again.
    pub closed spec fn owed(&self) -> nat {
        self.disk_writes_to_read as nat
    }

    /// The bytes that were fed and belong to no record taken so far.
    pub closed spec fn buffered(&self) -> Seq<u8> {
        self.buffer@
    }

    /// A receiver that owes nothing and has been fed nothing.
    pub fn new() -> (r: Receiver<T>)
        ensures
            r.owed() == 0,
            r.buffered() == Seq::<u8>::empty(),
    {
        Receiver { disk_writes_to_read: 0, buffer: Vec::new(), resource_type: PhantomData }
    }

    /// Takes in the bytes that were read next from the queue file.
    pub fn feed(&mut self, bytes: &Vec<u8>)
        ensures
            final(self).owed() == old(self).owed(),
            final(self).buffered() == old(self).buffered() + bytes@,
    {
        let mut i: usize = 0;
        while i < bytes.len()
            invariant
                i <= bytes.len(),
                self.disk_writes_to_read == old(self).disk_writes_to_read,
                self.buffer@ == old(self).buffer@ + bytes@.subrange(0, i as int),
            decreases bytes.len() - i,
        {
            self.buffer.push(bytes[i]);
            i += 1;
        }
        assert(bytes@.subrange(0, i as int) =~= bytes@);
    }

    /// Decides what the end of the file means. A sealed file gets no more
    /// records, so what was fed of it and is no whole record is dropped.
    pub fn end_of_file(&mut self, sealed: bool) -> (r: EndOfFile)
        ensures
            final(self).owed() == old(self).owed(),
            sealed ==> r == EndOfFile::Rollover && final(self).buffered() == Seq::<u8>::empty(),
            !sealed ==> r == EndOfFile::Retry && final(self).buffered() == old(self).buffered(),
    {
        if sealed {
            self.buffer.clear();
            EndOfFile::Rollover
        } else {
            EndOfFile::Retry
        }
    }

    /// Reads one owed record from what was fed.
    ///
    /// A whole record at the front is taken off, and one record less is
    /// owed if its payload expands. Without a whole record nothing changes.
    pub fn read_disk_value(&mut self) -> (r: ReadStep)
        requires
            old(self).owed() > 0,
        ensures
            !starts_with_record(old(self).buffered()) ==> {
                &&& r is NeedBytes
                &&& final(self).owed() == old(self).owed()
                &&& final(self).buffered() == old(self).buffered()
            },
            starts_with_record(old(self).buffered()) ==> {
                &&& final(self).buffered() == after_first(old(self).buffered())
                &&& match inflated(first_payload(old(self).buffered())) {
                    Some(raw) => {
                        &&& r matches ReadStep::Record(bytes)
                        &&& bytes@ == raw
                        &&& final(self).owed() == old(self).owed() - 1
                    },
                    None => r is Corrupt && final(self).owed() == old(self).owed(),
                }
            },
    {
        match take_record(&mut self.buffer) {
            None => ReadStep::NeedBytes,
            Some(payload) => match inflate(&payload) {
                Ok(raw) => {
                    self.disk_writes_to_read = self.disk_writes_to_read - 1;
                    ReadStep::Record(raw)
                },
                Err(_) => ReadStep::Corrupt,
            },
        }
    }

    /// Takes the next value, as far as that can be done without waiting.
    ///
    /// While records are owed, one is read from what was fed. Otherwise the
    /// front of the queue is taken: a value in memory is the next value; a
    /// run marker says how many records are owed from now on, and the first
    /// of them is read at once. Markers of empty runs are passed over. With
    /// nothing owed and nothing queued the caller has to wait.
    ///
    /// For the queue as a whole, a marker that is taken is the step `Open`
    /// of [`crate::model`], and a value or a record that is handed out is the
    /// step `Take`.
    pub fn next_value(&mut self, mem_buffer: &mut Queue<T>) -> (r: NextStep<T>)
        requires
            old(mem_buffer).wf(),
        ensures
            final(mem_buffer).wf(),
            final(mem_buffer).spec_capacity() == old(mem_buffer).spec_capacity(),
            final(mem_buffer).back() == old(mem_buffer).back(),
            old(self).owed() > 0 ==> {
                &&& final(mem_buffer)@ == old(mem_buffer)@
                &&& is_read_of(
                    r,
                    old(self).owed(),
                    old(self).buffered(),
                    final(self).owed(),
                    final(self).buffered(),
                )
            },
            old(self).owed() == 0 ==> {
                let passed = empty_runs(old(mem_buffer)@) as int;
                if passed == old(mem_buffer)@.len() {
                    &&& r is Wait
                    &&& final(mem_buffer)@ == Seq::<Placement<T>>::empty()
                    &&& final(self).owed() == 0
                    &&& final(self).buffered() == old(self).buffered()
                } else {
                    &&& final(mem_buffer)@ == old(mem_buffer)@.skip(passed + 1)
                    &&& match old(mem_buffer)@[passed] {
                        Placement::Memory(value) => {
                            &&& r == NextStep::Value(value)
                            &&& final(self).owed() == 0
                            &&& final(self).buffered() == old(self).buffered()
                        },
                        Placement::Disk(run) => is_read_of(
                            r,
                            run as nat,
                            old(self).buffered(),
                            final(self).owed(),
                            final(self).buffered(),
                        ),
                    }
                }
            },
            old(self).owed() > 0 && r is Encoded ==> is_step(
                *old(mem_buffer),
                old(self).owed(),
                Step::Take,
                *final(mem_buffer),
                final(self).owed(),
            ),
            old(self).owed() == 0 && old(mem_buffer)@.len() > 0 ==> match old(mem_buffer)@[0] {
                Placement::Memory(_) => is_step(
                    *old(mem_buffer),
                    0,
                    Step::Take,
                    *final(mem_buffer),
                    final(self).owed(),
                ),
                Placement::Disk(run) => run > 0 ==> {
                    &&& is_step(*old(mem_buffer), 0, Step::Open, *final(mem_buffer), run as nat)
                    &&& r is Encoded ==> is_step(
                        *final(mem_buffer),
                        run as nat,
                        Step::Take,
                        *final(mem_buffer),
                        final(self).owed(),
                    )
                },
            },
    {
        if self.disk_writes_to_read == 0 {
            let ghost entries = mem_buffer@;
            let ghost mut passed: nat = 0;
            loop
                invariant_except_break
                    self.disk_writes_to_read == 0,
                    mem_buffer@ == entries.skip(passed as int),
                invariant
                    old(self).disk_writes_to_read == 0,
                    mem_buffer.wf(),
                    mem_buffer.spec_capacity() == old(mem_buffer).spec_capacity(),
                    mem_buffer.back() == old(mem_buffer).back(),
                    self.buffer@ == old(self).buffer@,
                    entries == old(mem_buffer)@,
                    passed <= entries.len(),
                    forall|i: int| 0 <= i < passed ==> entries[i] == Placement::<T>::Disk(0),
                ensures
                    self.disk_writes_to_read > 0,
                    passed < entries.len(),
                    empty_runs(entries) == passed,
                    entries[passed as int] == Placement::<T>::Disk(self.disk_writes_to_read),
                    mem_buffer@ == entries.skip(passed as int + 1),
                decreases mem_buffer@.len(),
            {
                match mem_buffer.try_pop_front() {
                    None => {
                        proof {
                            lemma_empty_runs(entries, passed);
                        }
                        return NextStep::Wait;
                    },
                    Some(Placement::Memory(ev)) => {
                        proof {
                            lemma_empty_runs(entries, passed);
                            assert(entries.skip(passed as int).drop_first() =~= entries.skip(
                                passed as int + 1,
                            ));
                        }
                        return NextStep::Value(ev);
                    },
                    Some(Placement::Disk(sz)) => {
                        proof {
                            assert(entries.skip(passed as int).drop_first() =~= entries.skip(
                                passed as int + 1,
                            ));
                        }
                        if sz > 0 {
                            self.disk_writes_to_read = sz;
                            proof {
                                lemma_empty_runs(entries, passed);
                            }
                            break ;
                        }
                        proof {
                            passed = passed + 1;
                        }
                    },
                }
            }
        }
        match self.read_disk_value() {
            ReadStep::Record(raw) => NextStep::Encoded(raw),
            ReadStep::NeedBytes => NextStep::NeedBytes,
            ReadStep::Corrupt => NextStep::Corrupt,
        }
    }
}

} // verus!
