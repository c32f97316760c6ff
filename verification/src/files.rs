//! The queue files, as the disk work of the producers and the removals of
//! the consumer leave them.
//!
//! The files are not touched from here; this is what the owner of the queue
//! does with them, written down so that it can be reasoned about: a
//! [`DiskWrite`](crate::sender::DiskWrite) that is carried out changes the
//! files as [`Files::after_write`] says, and the consumer that has read a
//! sealed file to its end changes them as [`Files::after_removal`] says.

use crate::record::{
    framed, framed_all, lemma_framed_all_reads_back, payloads, MAX_PAYLOAD_LEN, PAYLOAD_LEN_BYTES,
};
use crate::sender::{
    after_plan, is_write_of, settled, DiskWrite, SenderSync, WriteOutcome, WritePlan,
};
use vstd::prelude::*;

verus! {

/// A queue file: the payloads of its records, and whether it is sealed.
pub struct QueueFile {
    pub records: Seq<Seq<u8>>,
    pub sealed: bool,
}

impl QueueFile {
    /// The bytes in the file.
    pub open spec fn bytes(self) -> Seq<u8> {
        framed_all(self.records)
    }
}

/// The queue files of one queue.
pub struct Files {
    /// The files that exist, by their sequence numbers.
    pub held: Map<usize, QueueFile>,
    /// The number of the file that the producers have open.
    pub open: Option<usize>,
    /// How many files may still be created.
    pub files_left: nat,
}

impl Files {
    /// The files of a queue that was just made: one empty file, open for
    /// writing, and `max_disk_files` more to come.
    pub open spec fn fresh(seq_num: usize, max_disk_files: usize) -> Files {
        Files {
            held: Map::empty().insert(seq_num, QueueFile { records: Seq::empty(), sealed: false }),
            open: Some(seq_num),
            files_left: max_disk_files as nat,
        }
    }

    /// The files with the one numbered `seq_num` sealed, if there is one.
    pub open spec fn sealed(self, seq_num: usize) -> Files {
        if self.held.contains_key(seq_num) {
            Files {
                held: self.held.insert(
                    seq_num,
                    QueueFile { sealed: true, ..self.held[seq_num] },
                ),
                ..self
            }
        } else {
            self
        }
    }

    /// The files with the one numbered `seq_num` created, unless it is
    /// there already, and open for writing; one file less may be created.
    pub open spec fn created(self, seq_num: usize) -> Files {
        Files {
            held: if self.held.contains_key(seq_num) {
                self.held
            } else {
                self.held.insert(seq_num, QueueFile { records: Seq::empty(), sealed: false })
            },
            open: Some(seq_num),
            files_left: (self.files_left - 1) as nat,
        }
    }

    /// The files with a record that carries `payload` appended to the open
    /// one. What is written to a file that is gone is gone with it.
    pub open spec fn appended(self, payload: Seq<u8>) -> Files {
        match self.open {
            Some(seq_num) => if self.held.contains_key(seq_num) {
                Files {
                    held: self.held.insert(
                        seq_num,
                        QueueFile {
                            records: self.held[seq_num].records.push(payload),
                            ..self.held[seq_num]
                        },
                    ),
                    ..self
                }
            } else {
                self
            },
            None => self,
        }
    }

    /// The files after the disk work planned as `plan`, for a record that
    /// carries `payload`, went as `outcome` says.
    pub open spec fn after_write(self, plan: WritePlan, payload: Seq<u8>, outcome: WriteOutcome) -> Files {
        match plan {
            WritePlan::Append => if outcome is Written {
                self.appended(payload)
            } else {
                self
            },
            WritePlan::Rollover { seal, create } => if outcome is CreateFailed {
                self.sealed(seal)
            } else if outcome is Written {
                self.sealed(seal).created(create).appended(payload)
            } else {
                self.sealed(seal).created(create)
            },
            WritePlan::Full { seal } => self.sealed(seal),
            WritePlan::Oversize => self,
        }
    }

    /// The files after the consumer removed the one numbered `seq_num`: one
    /// more file may be created.
    pub open spec fn after_removal(self, seq_num: usize) -> Files {
        Files { held: self.held.remove(seq_num), files_left: self.files_left + 1, ..self }
    }

    /// Whether the files are as the producers' shared state `sync` takes
    /// them to be, with files limited to `max_disk_bytes`, at most
    /// `max_disk_files` files allowed on top of the first, and no payload
    /// longer than `largest`.
    pub open spec fn in_order(
        self,
        sync: SenderSync,
        max_disk_bytes: usize,
        max_disk_files: nat,
        largest: nat,
    ) -> bool {
        &&& self.held.dom().finite()
        &&& self.held.dom().len() + self.files_left <= max_disk_files + 1
        &&& sync.file_open == self.open.is_some()
        &&& forall|seq_num: usize| #[trigger]
            self.held.contains_key(seq_num) ==> {
                &&& seq_num <= sync.sender_seq_num
                &&& self.open != Some(seq_num) ==> self.held[seq_num].sealed
                &&& self.open == Some(seq_num) && seq_num != sync.sender_seq_num
                    ==> self.held[seq_num].sealed
                &&& self.open == Some(seq_num) ==> self.held[seq_num].bytes().len()
                    == sync.bytes_written
                &&& self.held[seq_num].bytes().len() <= max_disk_bytes
                    || self.held[seq_num].bytes().len() <= largest + PAYLOAD_LEN_BYTES
                &&& forall|i: int|
                    0 <= i < self.held[seq_num].records.len() ==> (
                    #[trigger] self.held[seq_num].records[i]).len() <= MAX_PAYLOAD_LEN
            }
    }

    /// The files of a queue that was just made are in order.
    pub proof fn lemma_fresh_in_order(
        seq_num: usize,
        max_disk_bytes: usize,
        max_disk_files: usize,
        largest: nat,
    )
        ensures
            Files::fresh(seq_num, max_disk_files).in_order(
                SenderSync {
                    file_open: true,
                    bytes_written: 0,
                    sender_seq_num: seq_num,
                    total_disk_writes: 0,
                },
                max_disk_bytes,
                max_disk_files as nat,
                largest,
            ),
    {
        let files = Files::fresh(seq_num, max_disk_files);
        assert(files.held.dom() =~= Set::<usize>::empty().insert(seq_num));
        assert(framed_all(Seq::<Seq<u8>>::empty()).len() == 0);
    }

    /// Disk work that is carried out as planned keeps the files in order.
    /// The one exception is left out: the sequence number that has no
    /// successor.
    pub proof fn lemma_write_keeps_order(
        self,
        sync: SenderSync,
        max_disk_bytes: usize,
        max_disk_files: nat,
        largest: nat,
        payload: Seq<u8>,
        files_left: usize,
        write: DiskWrite,
        outcome: WriteOutcome,
    )
        requires
            self.in_order(sync, max_disk_bytes, max_disk_files, largest),
            self.files_left == files_left,
            payload.len() <= largest,
            sync.sender_seq_num < usize::MAX,
            is_write_of(write, payload, sync, max_disk_bytes, files_left),
        ensures
            self.after_write(write.plan, payload, outcome).in_order(
                settled(after_plan(sync, write.plan), write, outcome),
                max_disk_bytes,
                max_disk_files,
                largest,
            ),
    {
        let after = self.after_write(write.plan, payload, outcome);
        let then = settled(after_plan(sync, write.plan), write, outcome);
        match write.plan {
            WritePlan::Append => {
                if outcome is Written {
                    self.lemma_appended(payload);
                    let seq_num = self.open.unwrap();
                    if self.held.contains_key(seq_num) {
                        assert(after.held.dom() =~= self.held.dom());
                    }
                }
            },
            WritePlan::Rollover { seal, create } => {
                let sealed = self.sealed(seal);
                assert(sealed.held.dom() =~= self.held.dom());
                assert(!self.held.contains_key(create));
                if !(outcome is CreateFailed) {
                    let created = sealed.created(create);
                    assert(created.held.dom() =~= self.held.dom().insert(create));
                    assert(framed_all(Seq::<Seq<u8>>::empty()).len() == 0);
                    if outcome is Written {
                        created.lemma_appended(payload);
                        assert(after.held.dom() =~= created.held.dom());
                        assert(framed_all(Seq::<Seq<u8>>::empty()) =~= Seq::<u8>::empty());
                    }
                }
            },
            WritePlan::Full { seal } => {
                assert(after.held.dom() =~= self.held.dom());
            },
            WritePlan::Oversize => {},
        }
    }

    /// What a record appended to the open file does to its bytes.
    proof fn lemma_appended(self, payload: Seq<u8>)
        ensures
            self.open.is_some() && self.held.contains_key(self.open.unwrap()) ==> {
                let seq_num = self.open.unwrap();
                &&& self.appended(payload).held[seq_num].bytes() == self.held[seq_num].bytes()
                    + framed(payload)
                &&& self.appended(payload).held[seq_num].bytes().len()
                    == self.held[seq_num].bytes().len() + payload.len() + PAYLOAD_LEN_BYTES
            },
    {
        if let Some(seq_num) = self.open {
            if self.held.contains_key(seq_num) {
                lemma_framed_all_push(self.held[seq_num].records, payload);
            }
        }
    }

    /// The consumer that removes a file keeps the files in order.
    pub proof fn lemma_removal_keeps_order(
        self,
        sync: SenderSync,
        max_disk_bytes: usize,
        max_disk_files: nat,
        largest: nat,
        seq_num: usize,
    )
        requires
            self.in_order(sync, max_disk_bytes, max_disk_files, largest),
            self.held.contains_key(seq_num),
        ensures
            self.after_removal(seq_num).in_order(sync, max_disk_bytes, max_disk_files, largest),
    {
        assert(self.after_removal(seq_num).held.dom() =~= self.held.dom().remove(seq_num));
    }

    /// Files in order are no more than were allowed on top of the first,
    /// and none is larger than its limit and one record.
    pub proof fn lemma_disk_bounded(
        self,
        sync: SenderSync,
        max_disk_bytes: usize,
        max_disk_files: nat,
        largest: nat,
    )
        requires
            self.in_order(sync, max_disk_bytes, max_disk_files, largest),
        ensures
            self.held.dom().len() <= max_disk_files + 1,
            self.files_left >= 1 ==> self.held.dom().len() <= max_disk_files,
            forall|seq_num: usize| #[trigger]
                self.held.contains_key(seq_num) ==> self.held[seq_num].bytes().len()
                    <= max_disk_bytes + largest + PAYLOAD_LEN_BYTES,
    {
    }

    /// Among files in order every one but the open one is sealed: a file
    /// is written to only after the one before it was sealed. No file has a
    /// number beyond the one that the producers have reached. And every
    /// file is a row of whole records, which read back as they were
    /// written.
    pub proof fn lemma_sealed_and_whole(
        self,
        sync: SenderSync,
        max_disk_bytes: usize,
        max_disk_files: nat,
        largest: nat,
    )
        requires
            self.in_order(sync, max_disk_bytes, max_disk_files, largest),
        ensures
            forall|seq_num: usize| #[trigger]
                self.held.contains_key(seq_num) ==> {
                    &&& self.open != Some(seq_num) ==> self.held[seq_num].sealed
                    &&& seq_num <= sync.sender_seq_num
                    &&& payloads(self.held[seq_num].bytes()) == self.held[seq_num].records
                },
    {
        assert forall|seq_num: usize| #[trigger] self.held.contains_key(seq_num) implies payloads(
            self.held[seq_num].bytes(),
        ) == self.held[seq_num].records by {
            lemma_framed_all_reads_back(self.held[seq_num].records);
        }
    }
}

/// One more record in a row is the row and then the record.
pub proof fn lemma_framed_all_push(items: Seq<Seq<u8>>, payload: Seq<u8>)
    ensures
        framed_all(items.push(payload)) == framed_all(items) + framed(payload),
    decreases items.len(),
{
    let longer = items.push(payload);
    if items.len() == 0 {
        assert(longer.drop_first() =~= Seq::<Seq<u8>>::empty());
        assert(framed_all(longer.drop_first()) =~= Seq::<u8>::empty());
        assert(framed_all(items) =~= Seq::<u8>::empty());
        assert(framed_all(longer) =~= framed_all(items) + framed(payload));
    } else {
        assert(longer.drop_first() =~= items.drop_first().push(payload));
        lemma_framed_all_push(items.drop_first(), payload);
        assert(framed_all(longer) =~= framed_all(items) + framed(payload));
    }
}

} // verus!
