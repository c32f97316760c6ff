//! The queue as a whole, seen from outside: what was sent and not yet
//! received, in order, whether it sits in memory or on disk.
//!
//! The state here is that of the two sides and of the disk between them,
//! with everything left out that does not bear on the order of the values.
//! Each step is one call of a producer or of the consumer, as their
//! contracts describe it; the theorems say that no run of such steps loses,
//! doubles or reorders a value.

use crate::private::{Placement, Queue};
use vstd::prelude::*;

verus! {

/// One thing in the queue, as the consumer gets it: the value itself, or
/// the payload of the record that stands for it.
pub enum Item<T> {
    Value(T),
    Record(Seq<u8>),
}

/// The state of a queue.
pub struct Channel<T> {
    /// The placements in the ring, the front first.
    pub entries: Seq<Placement<T>>,
    /// The records written since the last run marker was pushed.
    pub waiting: nat,
    /// The records that the consumer reads before it looks at the ring again.
    pub owed: nat,
    /// The payloads of the records written and not yet read, the oldest first.
    pub disk: Seq<Seq<u8>>,
}

/// One call of a producer or of the consumer.
pub enum Step<T> {
    /// A value is sent and goes into memory.
    Place(T),
    /// A value is sent and its record, with this payload, is written.
    Spill(Seq<u8>),
    /// A value is sent and comes back: its record was not written.
    Refuse,
    /// A producer flushes.
    Flush,
    /// The consumer takes the run marker at the front and owes its records
    /// from then on.
    Open,
    /// The consumer takes the next value: the record it owes, or else the
    /// value at the front.
    Take,
}

/// The records with `payloads`, as items.
pub open spec fn as_records<T>(payloads: Seq<Seq<u8>>) -> Seq<Item<T>> {
    Seq::new(payloads.len(), |i: int| Item::Record(payloads[i]))
}

/// How many records the run markers in `entries` announce.
pub open spec fn marked<T>(entries: Seq<Placement<T>>) -> nat
    decreases entries.len(),
{
    if entries.len() == 0 {
        0
    } else {
        run_of(entries[0]) + marked(entries.drop_first())
    }
}

/// How many records `entry` announces.
pub open spec fn run_of<T>(entry: Placement<T>) -> nat {
    match entry {
        Placement::Memory(_) => 0,
        Placement::Disk(run) => run as nat,
    }
}

/// The items that `entries` stand for, in order, with the records on
/// `disk` put in where the run markers say. Records that no marker
/// announces come last.
pub open spec fn unfolded<T>(entries: Seq<Placement<T>>, disk: Seq<Seq<u8>>) -> Seq<Item<T>>
    decreases entries.len(),
{
    if entries.len() == 0 {
        as_records(disk)
    } else {
        match entries[0] {
            Placement::Memory(value) => seq![Item::Value(value)] + unfolded(
                entries.drop_first(),
                disk,
            ),
            Placement::Disk(run) => as_records(disk.take(run as int)) + unfolded(
                entries.drop_first(),
                disk.skip(run as int),
            ),
        }
    }
}

impl<T> Channel<T> {
    /// A queue that holds nothing.
    pub open spec fn empty() -> Channel<T> {
        Channel { entries: Seq::empty(), waiting: 0, owed: 0, disk: Seq::empty() }
    }

    /// Whether the counts agree: every record on disk is owed to the
    /// consumer, announced by a marker in the ring, or waiting for its
    /// marker; the waiting ones can be counted; and no marker announces an
    /// empty run.
    pub open spec fn wf(self) -> bool {
        &&& self.owed + marked(self.entries) + self.waiting == self.disk.len()
        &&& self.waiting <= usize::MAX
        &&& forall|i: int|
            0 <= i < self.entries.len() ==> #[trigger] self.entries[i] != Placement::<T>::Disk(0)
    }

    /// What was sent and not yet received, in the order in which it was
    /// sent.
    pub open spec fn order(self) -> Seq<Item<T>> {
        as_records(self.disk.take(self.owed as int)) + unfolded(
            self.entries,
            self.disk.skip(self.owed as int),
        )
    }

    /// Whether a value sent now goes into memory.
    pub open spec fn places(self, capacity: nat) -> bool {
        self.waiting == 0 && self.entries.len() < capacity
    }

    /// Whether the marker of the waiting records can be pushed.
    pub open spec fn announces(self, capacity: nat) -> bool {
        self.waiting > 0 && self.entries.len() < capacity
    }

    /// Whether the consumer finds a run marker next.
    pub open spec fn opens(self) -> bool {
        self.owed == 0 && self.entries.len() > 0 && self.entries[0] is Disk
    }

    /// Whether the consumer finds a value next: a record that it owes, or a
    /// value at the front.
    pub open spec fn takes(self) -> bool {
        self.owed > 0 || (self.entries.len() > 0 && self.entries[0] is Memory)
    }

    /// Whether `step` can be taken with a ring of `capacity` slots.
    pub open spec fn allows(self, step: Step<T>, capacity: nat) -> bool {
        match step {
            Step::Place(_) => self.places(capacity),
            Step::Spill(_) => !self.places(capacity) && self.waiting < usize::MAX,
            Step::Refuse => !self.places(capacity),
            Step::Flush => true,
            Step::Open => self.opens(),
            Step::Take => self.takes(),
        }
    }

    /// The queue after `step`.
    pub open spec fn after(self, step: Step<T>, capacity: nat) -> Channel<T> {
        match step {
            Step::Place(value) => Channel {
                entries: self.entries.push(Placement::Memory(value)),
                ..self
            },
            Step::Spill(payload) => {
                let written = Channel {
                    disk: self.disk.push(payload),
                    waiting: self.waiting + 1,
                    ..self
                };
                if self.announces(capacity) {
                    written.announced()
                } else {
                    written
                }
            },
            Step::Refuse => self,
            Step::Flush => if self.announces(capacity) {
                self.announced()
            } else {
                self
            },
            Step::Open => Channel {
                entries: self.entries.drop_first(),
                owed: run_of(self.entries[0]),
                ..self
            },
            Step::Take => if self.owed > 0 {
                Channel { owed: (self.owed - 1) as nat, disk: self.disk.drop_first(), ..self }
            } else {
                Channel { entries: self.entries.drop_first(), ..self }
            },
        }
    }

    /// The queue with the marker of the waiting records pushed.
    pub open spec fn announced(self) -> Channel<T> {
        Channel {
            entries: self.entries.push(Placement::Disk(self.waiting as usize)),
            waiting: 0,
            ..self
        }
    }

    /// What `step` puts into the queue.
    pub open spec fn sends(step: Step<T>) -> Seq<Item<T>> {
        match step {
            Step::Place(value) => seq![Item::Value(value)],
            Step::Spill(payload) => seq![Item::Record(payload)],
            _ => Seq::empty(),
        }
    }

    /// What `step` hands to the consumer.
    pub open spec fn receives(self, step: Step<T>) -> Seq<Item<T>> {
        match step {
            Step::Take => if self.owed > 0 {
                seq![Item::Record(self.disk[0])]
            } else {
                seq![Item::Value(self.entries[0]->Memory_0)]
            },
            _ => Seq::empty(),
        }
    }

    /// Whether `steps` can be taken one after the other.
    pub open spec fn allows_all(self, steps: Seq<Step<T>>, capacity: nat) -> bool
        decreases steps.len(),
    {
        steps.len() > 0 ==> self.allows(steps[0], capacity) && self.after(
            steps[0],
            capacity,
        ).allows_all(steps.drop_first(), capacity)
    }

    /// The queue after `steps`.
    pub open spec fn after_all(self, steps: Seq<Step<T>>, capacity: nat) -> Channel<T>
        decreases steps.len(),
    {
        if steps.len() == 0 {
            self
        } else {
            self.after(steps[0], capacity).after_all(steps.drop_first(), capacity)
        }
    }

    /// What `steps` hand to the consumer, in order.
    pub open spec fn receives_all(self, steps: Seq<Step<T>>, capacity: nat) -> Seq<Item<T>>
        decreases steps.len(),
    {
        if steps.len() == 0 {
            Seq::empty()
        } else {
            self.receives(steps[0]) + self.after(steps[0], capacity).receives_all(
                steps.drop_first(),
                capacity,
            )
        }
    }
}

/// What `steps` put into the queue, in order.
pub open spec fn sends_all<T>(steps: Seq<Step<T>>) -> Seq<Item<T>>
    decreases steps.len(),
{
    if steps.len() == 0 {
        Seq::empty()
    } else {
        Channel::sends(steps[0]) + sends_all(steps.drop_first())
    }
}

/// The queue that a ring makes up with the records that its consumer owes
/// and the payloads on disk.
pub open spec fn channel_of<T>(mem_buffer: Queue<T>, owed: nat, disk: Seq<Seq<u8>>) -> Channel<T> {
    Channel {
        entries: mem_buffer@,
        waiting: mem_buffer.back().total_disk_writes as nat,
        owed,
        disk,
    }
}

/// Whether the step `step` leads from the ring `before`, with `owed` records
/// owed by the consumer, to the ring `after`, with `owed_after` owed,
/// whatever the disk holds: the step is allowed, and the ring and what is
/// owed are afterwards as the step leaves them.
pub open spec fn is_step<T>(
    before: Queue<T>,
    owed: nat,
    step: Step<T>,
    after: Queue<T>,
    owed_after: nat,
) -> bool {
    forall|disk: Seq<Seq<u8>>|
        #![trigger channel_of(before, owed, disk)]
        {
            let start = channel_of(before, owed, disk);
            let end = start.after(step, before.spec_capacity());
            start.allows(step, before.spec_capacity()) && end == channel_of(
                after,
                owed_after,
                end.disk,
            )
        }
}

/// Whether the step `step` of a producer leads from the ring `before` to
/// the ring `after`, whatever the consumer owes and the disk holds.
pub open spec fn is_producer_step<T>(before: Queue<T>, step: Step<T>, after: Queue<T>) -> bool {
    forall|owed: nat| #[trigger] is_step(before, owed, step, after, owed)
}

/// One more entry at the back announces its run on top of the others.
proof fn lemma_marked_push<T>(entries: Seq<Placement<T>>, entry: Placement<T>)
    ensures
        marked(entries.push(entry)) == marked(entries) + run_of(entry),
    decreases entries.len(),
{
    let longer = entries.push(entry);
    if entries.len() == 0 {
        assert(longer.drop_first() =~= Seq::<Placement<T>>::empty());
        assert(marked(longer.drop_first()) == 0);
    } else {
        assert(longer.drop_first() =~= entries.drop_first().push(entry));
        lemma_marked_push(entries.drop_first(), entry);
    }
}

/// A record written behind everything comes last.
proof fn lemma_unfolded_written<T>(entries: Seq<Placement<T>>, disk: Seq<Seq<u8>>, payload: Seq<u8>)
    requires
        marked(entries) <= disk.len(),
    ensures
        unfolded(entries, disk.push(payload)) == unfolded(entries, disk).push(
            Item::Record(payload),
        ),
    decreases entries.len(),
{
    if entries.len() == 0 {
        assert(as_records::<T>(disk.push(payload)) =~= as_records::<T>(disk).push(
            Item::Record(payload),
        ));
    } else {
        let rest = entries.drop_first();
        match entries[0] {
            Placement::Memory(value) => {
                lemma_unfolded_written(rest, disk, payload);
                assert(seq![Item::Value(value)] + unfolded(rest, disk).push(Item::Record(payload))
                    =~= (seq![Item::Value(value)] + unfolded(rest, disk)).push(
                    Item::Record(payload),
                ));
            },
            Placement::Disk(run) => {
                let run = run as int;
                assert(disk.push(payload).take(run) =~= disk.take(run));
                assert(disk.push(payload).skip(run) =~= disk.skip(run).push(payload));
                lemma_unfolded_written(rest, disk.skip(run), payload);
                assert(as_records::<T>(disk.take(run)) + unfolded(rest, disk.skip(run)).push(
                    Item::Record(payload),
                ) =~= (as_records::<T>(disk.take(run)) + unfolded(rest, disk.skip(run))).push(
                    Item::Record(payload),
                ));
            },
        }
    }
}

/// A value placed behind everything comes last, where no record waits.
proof fn lemma_unfolded_placed<T>(entries: Seq<Placement<T>>, disk: Seq<Seq<u8>>, value: T)
    requires
        marked(entries) == disk.len(),
    ensures
        unfolded(entries.push(Placement::Memory(value)), disk) == unfolded(entries, disk).push(
            Item::Value(value),
        ),
    decreases entries.len(),
{
    let longer = entries.push(Placement::Memory(value));
    if entries.len() == 0 {
        assert(longer.drop_first() =~= Seq::<Placement<T>>::empty());
        assert(longer[0] == Placement::Memory(value));
        assert(unfolded(longer.drop_first(), disk) == as_records::<T>(disk));
        assert(unfolded(entries, disk) == as_records::<T>(disk));
        assert(unfolded(longer, disk) =~= unfolded(entries, disk).push(Item::Value(value)));
    } else {
        let rest = entries.drop_first();
        assert(longer.drop_first() =~= rest.push(Placement::Memory(value)));
        match entries[0] {
            Placement::Memory(first) => {
                lemma_unfolded_placed(rest, disk, value);
                assert(seq![Item::Value(first)] + unfolded(rest, disk).push(Item::Value(value))
                    =~= (seq![Item::Value(first)] + unfolded(rest, disk)).push(Item::Value(value)));
            },
            Placement::Disk(run) => {
                let run = run as int;
                lemma_unfolded_placed(rest, disk.skip(run), value);
                assert(as_records::<T>(disk.take(run)) + unfolded(rest, disk.skip(run)).push(
                    Item::Value(value),
                ) =~= (as_records::<T>(disk.take(run)) + unfolded(rest, disk.skip(run))).push(
                    Item::Value(value),
                ));
            },
        }
    }
}

/// The marker of the records that come last changes nothing in the order.
proof fn lemma_unfolded_announced<T>(entries: Seq<Placement<T>>, disk: Seq<Seq<u8>>, run: usize)
    requires
        marked(entries) + run == disk.len(),
    ensures
        unfolded(entries.push(Placement::Disk(run)), disk) == unfolded(entries, disk),
    decreases entries.len(),
{
    let longer = entries.push(Placement::Disk(run));
    if entries.len() == 0 {
        assert(longer.drop_first() =~= Seq::<Placement<T>>::empty());
        assert(longer[0] == Placement::<T>::Disk(run));
        assert(disk.take(run as int) =~= disk);
        assert(as_records::<T>(disk.skip(run as int)) =~= Seq::<Item<T>>::empty());
        assert(unfolded(longer.drop_first(), disk.skip(run as int)) == as_records::<T>(
            disk.skip(run as int),
        ));
        assert(unfolded(entries, disk) == as_records::<T>(disk));
        assert(unfolded(longer, disk) =~= unfolded(entries, disk));
    } else {
        let rest = entries.drop_first();
        assert(longer.drop_first() =~= rest.push(Placement::Disk(run)));
        match entries[0] {
            Placement::Memory(_) => {
                lemma_unfolded_announced(rest, disk, run);
            },
            Placement::Disk(first) => {
                lemma_unfolded_announced(rest, disk.skip(first as int), run);
            },
        }
    }
}

impl<T> Channel<T> {
    /// The marker of the waiting records changes nothing in what the queue
    /// holds.
    proof fn lemma_announced(self)
        requires
            self.wf(),
            self.waiting > 0,
        ensures
            self.announced().wf(),
            self.announced().order() == self.order(),
    {
        let marker = Placement::<T>::Disk(self.waiting as usize);
        lemma_marked_push(self.entries, marker);
        lemma_unfolded_announced(
            self.entries,
            self.disk.skip(self.owed as int),
            self.waiting as usize,
        );
    }

    /// One step keeps the counts in agreement and the order intact: what
    /// the consumer got, and then what the queue holds, is what the queue
    /// held, and then what was sent.
    pub proof fn lemma_step(self, step: Step<T>, capacity: nat)
        requires
            self.wf(),
            self.allows(step, capacity),
        ensures
            self.after(step, capacity).wf(),
            self.receives(step) + self.after(step, capacity).order() == self.order()
                + Channel::sends(step),
    {
        let post = self.after(step, capacity);
        let owed = self.owed as int;
        match step {
            Step::Place(value) => {
                lemma_marked_push(self.entries, Placement::Memory(value));
                lemma_unfolded_placed(self.entries, self.disk.skip(owed), value);
                assert(post.order() =~= self.order().push(Item::Value(value)));
                assert(self.receives(step) + post.order() =~= self.order() + Channel::sends(step));
            },
            Step::Spill(payload) => {
                let written = Channel {
                    disk: self.disk.push(payload),
                    waiting: self.waiting + 1,
                    ..self
                };
                assert(written.disk.take(owed) =~= self.disk.take(owed));
                assert(written.disk.skip(owed) =~= self.disk.skip(owed).push(payload));
                lemma_unfolded_written(self.entries, self.disk.skip(owed), payload);
                assert(written.order() =~= self.order().push(Item::Record(payload)));
                if self.announces(capacity) {
                    written.lemma_announced();
                }
                assert(self.receives(step) + post.order() =~= self.order() + Channel::sends(step));
            },
            Step::Refuse => {
                assert(self.receives(step) + post.order() =~= self.order() + Channel::sends(step));
            },
            Step::Flush => {
                if self.announces(capacity) {
                    self.lemma_announced();
                }
                assert(self.receives(step) + post.order() =~= self.order() + Channel::sends(step));
            },
            Step::Open => {
                let rest = self.entries.drop_first();
                let run = run_of(self.entries[0]) as int;
                assert(self.disk.take(0) =~= Seq::<Seq<u8>>::empty());
                assert(self.disk.skip(0) =~= self.disk);
                assert(as_records::<T>(self.disk.take(0)) =~= Seq::<Item<T>>::empty());
                assert forall|i: int| 0 <= i < rest.len() implies #[trigger] rest[i]
                    != Placement::<T>::Disk(0) by {
                    assert(rest[i] == self.entries[i + 1]);
                }
                assert(self.receives(step) + post.order() =~= self.order());
                assert(self.order() + Channel::sends(step) =~= self.order());
            },
            Step::Take => {
                if self.owed > 0 {
                    assert(self.disk.drop_first().take(owed - 1) =~= self.disk.take(owed).drop_first());
                    assert(self.disk.drop_first().skip(owed - 1) =~= self.disk.skip(owed));
                    assert(as_records::<T>(self.disk.take(owed)) =~= seq![
                        Item::Record(self.disk[0]),
                    ] + as_records::<T>(self.disk.take(owed).drop_first()));
                    assert(self.receives(step) + post.order() =~= self.order());
                } else {
                    let rest = self.entries.drop_first();
                    assert(self.disk.take(0) =~= Seq::<Seq<u8>>::empty());
                    assert(self.disk.skip(0) =~= self.disk);
                    assert(as_records::<T>(self.disk.take(0)) =~= Seq::<Item<T>>::empty());
                    assert forall|i: int| 0 <= i < rest.len() implies #[trigger] rest[i]
                        != Placement::<T>::Disk(0) by {
                        assert(rest[i] == self.entries[i + 1]);
                    }
                    assert(self.receives(step) + post.order() =~= self.order());
                }
                assert(self.order() + Channel::sends(step) =~= self.order());
            },
        }
    }

    /// Whatever the producers and the consumer do, in whatever order they
    /// take their turns: what the consumer got, and then what the queue
    /// still holds, is what the queue held at first, and then what was sent,
    /// value for value and in the order of sending.
    pub proof fn lemma_order_preserved(self, steps: Seq<Step<T>>, capacity: nat)
        requires
            self.wf(),
            self.allows_all(steps, capacity),
        ensures
            self.after_all(steps, capacity).wf(),
            self.receives_all(steps, capacity) + self.after_all(steps, capacity).order()
                == self.order() + sends_all(steps),
        decreases steps.len(),
    {
        if steps.len() == 0 {
            assert(self.receives_all(steps, capacity) + self.order() =~= self.order() + sends_all(
                steps,
            ));
        } else {
            let next = self.after(steps[0], capacity);
            let rest = steps.drop_first();
            self.lemma_step(steps[0], capacity);
            next.lemma_order_preserved(rest, capacity);
            let got = self.receives(steps[0]);
            let got_later = next.receives_all(rest, capacity);
            let held = next.after_all(rest, capacity).order();
            assert(self.receives_all(steps, capacity) + held =~= got + (got_later + held));
            assert(got + (next.order() + sends_all(rest)) =~= (got + next.order()) + sends_all(rest));
            assert((self.order() + Channel::sends(steps[0])) + sends_all(rest) =~= self.order() + (
            Channel::sends(steps[0]) + sends_all(rest)));
        }
    }

    /// No run of steps loses a value, doubles one or makes one up: the
    /// values received and the values still held are, counted with their
    /// repeats, the values held at first and the values sent.
    pub proof fn lemma_nothing_lost(self, steps: Seq<Step<T>>, capacity: nat)
        requires
            self.wf(),
            self.allows_all(steps, capacity),
        ensures
            self.receives_all(steps, capacity).to_multiset().add(
                self.after_all(steps, capacity).order().to_multiset(),
            ) == self.order().to_multiset().add(sends_all(steps).to_multiset()),
    {
        self.lemma_order_preserved(steps, capacity);
        vstd::seq_lib::lemma_multiset_commutative(
            self.receives_all(steps, capacity),
            self.after_all(steps, capacity).order(),
        );
        vstd::seq_lib::lemma_multiset_commutative(self.order(), sends_all(steps));
    }

    /// The values of any one producer keep their order among themselves,
    /// however the producers' sends interleave. `from` singles out the
    /// items of the producer; the steps are the calls of all producers and
    /// of the consumer, in the order in which they took hold of the queue.
    pub proof fn lemma_each_producer_in_order(
        self,
        steps: Seq<Step<T>>,
        capacity: nat,
        from: spec_fn(Item<T>) -> bool,
    )
        requires
            self.wf(),
            self.allows_all(steps, capacity),
        ensures
            self.receives_all(steps, capacity).filter(from) + self.after_all(
                steps,
                capacity,
            ).order().filter(from) == self.order().filter(from) + sends_all(steps).filter(from),
    {
        self.lemma_order_preserved(steps, capacity);
        Seq::filter_distributes_over_add(
            self.receives_all(steps, capacity),
            self.after_all(steps, capacity).order(),
            from,
        );
        Seq::filter_distributes_over_add(self.order(), sends_all(steps), from);
    }

    /// A queue that holds nothing is in order and has nothing to hand out.
    pub proof fn lemma_empty()
        ensures
            Channel::<T>::empty().wf(),
            Channel::<T>::empty().order() == Seq::<Item<T>>::empty(),
    {
        let fresh = Channel::<T>::empty();
        assert(fresh.disk.take(0) =~= Seq::<Seq<u8>>::empty());
        assert(fresh.disk.skip(0) =~= Seq::<Seq<u8>>::empty());
        assert(fresh.order() =~= Seq::<Item<T>>::empty());
    }
}

} // verus!
