//! The event queue: the one way in which the core speaks to the world
//! outside. What the game would do on every move of a cell (redraw the
//! raster, wake chunks, notify collectors and mods) is queued here and handed
//! over in one piece at the end of the tick.
use vstd::prelude::*;

verus! {

/// What happened during a tick and has to be applied outside.
#[derive(Clone, Copy, PartialEq, Eq, Debug)]
pub enum Event {
    /// A cell moved.
    Moved { from: (i32, i32), to: (i32, i32) },
    /// The core does not take this cell: the old code has to finish it.
    NeedsJs { x: i32, y: i32, why: Why },
}

/// Why a cell went back to the old code.
#[derive(Clone, Copy, PartialEq, Eq, Debug, Structural)]
pub enum Why {
    /// A liquid or gas that kept moving on one row for too long: evaporation
    /// is economy.
    Stagnant,
    /// A pair of elements that turns into something.
    Reaction,
    /// A timer ran out.
    Duration,
    /// A state of matter the core does not know.
    UnknownMatter,
}

/// Receiver of events. The physics hands every event to a sink; what the sink
/// does with it is up to the sink.
pub trait EventSink {
    /// `after` is this sink once `event` has been handed to it.
    spec fn took(&self, event: Event, after: &Self) -> bool;

    fn push(&mut self, event: Event)
        ensures
            old(self).took(event, final(self)),
    ;
}

/// The states of a sink along a run of events: each state is the one before
/// once it took the event in between.
pub open spec fn run<S: EventSink>(states: Seq<S>, events: Seq<Event>) -> bool {
    &&& states.len() == events.len() + 1
    &&& forall|i: int| 0 <= i < events.len() ==> #[trigger] states[i].took(events[i], &states[i + 1])
}

/// `after` is `before` once the events have been handed to it in order.
pub open spec fn took_all<S: EventSink>(before: S, events: Seq<Event>, after: S) -> bool {
    exists|states: Seq<S>| #[trigger] run(states, events) && states[0] == before && states.last() == after
}

/// Nothing handed over, nothing changed.
pub proof fn lemma_took_none<S: EventSink>(sink: S)
    ensures
        took_all(sink, Seq::<Event>::empty(), sink),
{
    let states = seq![sink];
    assert(run(states, Seq::<Event>::empty()));
}

/// Handing over one more event extends the record.
pub proof fn lemma_took_one_more<S: EventSink>(before: S, events: Seq<Event>, mid: S, event: Event, after: S)
    requires
        took_all(before, events, mid),
        mid.took(event, &after),
    ensures
        took_all(before, events.push(event), after),
{
    let states = choose|states: Seq<S>| #[trigger] run(states, events) && states[0] == before && states.last() == mid;
    let longer = states.push(after);
    assert forall|i: int| 0 <= i < events.push(event).len() implies #[trigger] longer[i].took(events.push(event)[i], &longer[i + 1]) by {
        if i < events.len() {
            assert(states[i].took(events[i], &states[i + 1]));
        }
    }
    assert(run(longer, events.push(event)));
}

/// At most one event: none, or the one given.
pub open spec fn took_maybe<S: EventSink>(before: S, event: Option<Event>, after: S) -> bool {
    match event {
        Some(e) => before.took(e, &after),
        None => before == after,
    }
}

/// A buffer of fixed size. It never grows: an allocation in the middle of a
/// tick is exactly the pause that the core exists to avoid. Events beyond the
/// capacity are lost and counted, and the count tells the receiving side to
/// redo the tick the old way.
pub struct EventQueue {
    events: Vec<Event>,
    capacity: usize,
    overflow: usize,
}

impl EventQueue {
    /// The events kept, in the order in which they came.
    pub closed spec fn contents(self) -> Seq<Event> {
        self.events@
    }

    pub closed spec fn capacity(self) -> nat {
        self.capacity as nat
    }

    /// How many events were lost for want of room.
    pub closed spec fn lost(self) -> nat {
        self.overflow as nat
    }

    /// The queue after one more event: kept while there is room, counted as
    /// lost after that.
    pub open spec fn pushed(self, event: Event, after: Self) -> bool {
        &&& after.capacity() == self.capacity()
        &&& if self.contents().len() < self.capacity() {
            after.contents() == self.contents().push(event) && after.lost() == self.lost()
        } else {
            after.contents() == self.contents() && after.lost() == if self.lost() < usize::MAX {
                self.lost() + 1
            } else {
                self.lost()
            }
        }
    }

    pub fn with_capacity(capacity: usize) -> (q: Self)
        ensures
            q.contents() == Seq::<Event>::empty(),
            q.capacity() == capacity,
            q.lost() == 0,
    {
        EventQueue { events: Vec::with_capacity(capacity), capacity, overflow: 0 }
    }

    pub fn clear(&mut self)
        ensures
            final(self).contents() == Seq::<Event>::empty(),
            final(self).capacity() == old(self).capacity(),
            final(self).lost() == 0,
    {
        self.events.clear();
        self.overflow = 0;
    }

    pub fn events(&self) -> (r: &[Event])
        ensures
            r@ == self.contents(),
    {
        self.events.as_slice()
    }

    pub fn overflowed(&self) -> (r: usize)
        ensures
            r == self.lost(),
    {
        self.overflow
    }

    pub fn len(&self) -> (r: usize)
        ensures
            r == self.contents().len(),
    {
        self.events.len()
    }

    pub fn is_empty(&self) -> (r: bool)
        ensures
            r == (self.contents().len() == 0),
    {
        self.events.len() == 0
    }
}

impl EventSink for EventQueue {
    open spec fn took(&self, event: Event, after: &Self) -> bool {
        self.pushed(event, *after)
    }

    fn push(&mut self, event: Event) {
        if self.events.len() < self.capacity {
            self.events.push(event);
        } else {
            self.overflow = self.overflow.saturating_add(1);
        }
    }
}

/// A sink that drops everything: for measuring the physics alone.
pub struct NullSink;

impl EventSink for NullSink {
    open spec fn took(&self, event: Event, after: &Self) -> bool {
        true
    }

    fn push(&mut self, _event: Event) {
    }
}

/// Every event handed to a queue is either kept or counted as lost (the
/// count stops at the largest `usize`), and the queue never holds more than
/// its capacity.
pub proof fn law_queue_accounts_for_every_event(before: EventQueue, event: Event, after: EventQueue)
    requires
        before.contents().len() <= before.capacity(),
        before.lost() < usize::MAX,
        before.pushed(event, after),
    ensures
        after.contents().len() + after.lost() == before.contents().len() + before.lost() + 1,
        after.contents().len() <= after.capacity(),
        before.contents().is_prefix_of(after.contents()),
{
}

/// The smaller of two counts.
pub open spec fn fewer(a: nat, b: nat) -> nat {
    if a <= b {
        a
    } else {
        b
    }
}

/// A queue that started empty, after the first `k` events of a run.
proof fn lemma_queue_prefix(states: Seq<EventQueue>, events: Seq<Event>, k: int)
    requires
        states.len() == events.len() + 1,
        forall|i: int| 0 <= i < events.len() ==> #[trigger] states[i].pushed(events[i], states[i + 1]),
        0 <= k <= events.len(),
        events.len() < usize::MAX,
        states[0].contents() == Seq::<Event>::empty(),
        states[0].lost() == 0,
    ensures
        states[k].capacity() == states[0].capacity(),
        states[k].contents() == events.take(fewer(k as nat, states[0].capacity()) as int),
        states[k].lost() == k - fewer(k as nat, states[0].capacity()),
    decreases k,
{
    if k > 0 {
        lemma_queue_prefix(states, events, k - 1);
        let j = k - 1;
        assert(states[j].pushed(events[j], states[j + 1]));
        if k - 1 < states[0].capacity() {
            assert(events.take(k) =~= events.take(k - 1).push(events[k - 1]));
        }
    } else {
        assert(events.take(0) =~= Seq::<Event>::empty());
    }
}

/// A queue made empty (new, or cleared) that is handed `n` events in turn
/// keeps the first `min(n, capacity)` of them, in the order in which they
/// came, and counts the rest as lost: it never holds more than its capacity.
pub proof fn law_queue_keeps_the_first_events(states: Seq<EventQueue>, events: Seq<Event>)
    requires
        states.len() == events.len() + 1,
        forall|i: int| 0 <= i < events.len() ==> #[trigger] states[i].pushed(events[i], states[i + 1]),
        events.len() < usize::MAX,
        states[0].contents() == Seq::<Event>::empty(),
        states[0].lost() == 0,
    ensures
        ({
            let kept = fewer(events.len(), states[0].capacity());
            &&& states.last().contents() == events.take(kept as int)
            &&& states.last().lost() == events.len() - kept
            &&& states.last().capacity() == states[0].capacity()
        }),
{
    lemma_queue_prefix(states, events, events.len() as int);
}

} // verus!
