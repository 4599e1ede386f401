//! The queue of pending events, taken out earliest first: by fire time, then
//! priority, then insertion sequence.
use super::Event;
use vstd::multiset::Multiset;
use vstd::prelude::*;

verus! {

/// `a` comes strictly before `b`: by fire time, then priority, then sequence.
pub open spec fn fires_first(a: Event, b: Event) -> bool {
    ||| a.fire_at < b.fire_at
    ||| (a.fire_at == b.fire_at && a.priority < b.priority)
    ||| (a.fire_at == b.fire_at && a.priority == b.priority && a.sequence < b.sequence)
}

/// `a` does not come after `b`.
pub open spec fn fires_no_later(a: Event, b: Event) -> bool {
    !fires_first(b, a)
}

/// `e` is in `m` and nothing in `m` comes before it.
pub open spec fn is_next_in(m: Multiset<Event>, e: Event) -> bool {
    &&& m.count(e) > 0
    &&& forall|x: Event| #[trigger] m.count(x) > 0 ==> fires_no_later(e, x)
}

/// Events leave the queue in order: the event popped after `first` never
/// comes before it.
pub proof fn lemma_pops_in_order(m: Multiset<Event>, first: Event, second: Event)
    requires
        is_next_in(m, first),
        is_next_in(m.remove(first), second),
    ensures
        fires_no_later(first, second),
{
    assert(m.remove(first).count(second) > 0);
    assert(m.count(second) > 0);
}

/// What `pop` takes out is the least pending event by fire time, then
/// priority, then sequence: no pending event fires earlier; of those firing at
/// the same time none has a smaller priority, whatever their sequence numbers;
/// and the sequence decides only between equal fire time and priority.
pub proof fn lemma_next_is_least(m: Multiset<Event>, e: Event)
    requires
        is_next_in(m, e),
    ensures
        forall|x: Event| #[trigger] m.count(x) > 0 ==> e.fire_at <= x.fire_at,
        forall|x: Event|
            #[trigger] m.count(x) > 0 && x.fire_at == e.fire_at ==> e.priority <= x.priority,
        forall|x: Event|
            #[trigger] m.count(x) > 0 && x.fire_at == e.fire_at && x.priority == e.priority
                ==> e.sequence <= x.sequence,
{
}

/// The order is deterministic: when no two pending events share fire time,
/// priority and sequence, only one event can be next.
pub proof fn lemma_next_is_unique(m: Multiset<Event>, a: Event, b: Event)
    requires
        is_next_in(m, a),
        is_next_in(m, b),
        forall|x: Event, y: Event|
            #[trigger] m.count(x) > 0 && #[trigger] m.count(y) > 0 && x.fire_at == y.fire_at
                && x.priority == y.priority && x.sequence == y.sequence ==> x == y,
    ensures
        a == b,
{
    assert(fires_no_later(a, b));
    assert(fires_no_later(b, a));
}

/// Holds the pending events, the one to fire next last.
pub struct EventQueue {
    events: Vec<Event>,
}

impl View for EventQueue {
    type V = Multiset<Event>;

    closed spec fn view(&self) -> Multiset<Event> {
        self.events@.to_multiset()
    }
}

impl EventQueue {
    /// Every event comes no later than those before it.
    #[verifier::type_invariant]
    spec fn descending(&self) -> bool {
        forall|i: int, j: int|
            0 <= i <= j < self.events.len() ==> fires_no_later(self.events@[j], self.events@[i])
    }

    /// `e` is pending and no pending event comes before it.
    pub open spec fn is_next(&self, e: Event) -> bool {
        is_next_in(self@, e)
    }

    pub fn new() -> (q: Self)
        ensures
            q@ =~= Multiset::empty(),
    {
        let q = Self { events: Vec::new() };
        proof {
            broadcast use vstd::seq_lib::group_to_multiset_ensures;

            assert(q.events@.to_multiset().len() == 0);
        }
        q
    }

    fn fires_first(a: &Event, b: &Event) -> (r: bool)
        ensures
            r == fires_first(*a, *b),
    {
        a.fire_at < b.fire_at || (a.fire_at == b.fire_at && a.priority < b.priority) || (a.fire_at
            == b.fire_at && a.priority == b.priority && a.sequence < b.sequence)
    }

    pub fn push(&mut self, event: Event)
        ensures
            final(self)@ =~= old(self)@.insert(event),
    {
        proof {
            use_type_invariant(&*self);
        }
        let len = self.events.len();
        let mut i: usize = 0;
        while i < len && Self::fires_first(&event, &self.events[i])
            invariant
                i <= len,
                len == self.events.len(),
                forall|j: int| 0 <= j < i ==> fires_first(event, #[trigger] self.events@[j]),
            decreases len - i,
        {
            i = i + 1;
        }
        let ghost old_events = self.events@;
        proof {
            assert forall|a: int, b: int|
                0 <= a <= b < old_events.len() + 1 implies fires_no_later(
                old_events.insert(i as int, event)[b],
                old_events.insert(i as int, event)[a],
            ) by {
                let s = old_events.insert(i as int, event);
                if a < i && b == i {
                } else if a == i && b > i {
                    assert(!fires_first(event, old_events[i as int]));
                    assert(fires_no_later(old_events[b - 1], old_events[i as int]));
                } else if a < i && b > i {
                    assert(fires_no_later(old_events[b - 1], old_events[a]));
                }
            }
            broadcast use vstd::seq_lib::group_to_multiset_ensures;

        }
        let mut events: Vec<Event> = Vec::new();
        std::mem::swap(&mut events, &mut self.events);
        events.insert(i, event);
        self.events = events;
    }

    /// Takes out the event that fires first.
    pub fn pop(&mut self) -> (r: Option<Event>)
        ensures
            old(self)@.len() == 0 ==> r is None && final(self)@ == old(self)@,
            old(self)@.len() > 0 ==> (r matches Some(e) && old(self).is_next(e) && final(self)@
                =~= old(self)@.remove(e)),
    {
        proof {
            use_type_invariant(&*self);
            broadcast use vstd::seq_lib::group_to_multiset_ensures;

        }
        let ghost s = self.events@;
        let mut events: Vec<Event> = Vec::new();
        std::mem::swap(&mut events, &mut self.events);
        let r = events.pop();
        self.events = events;
        proof {
            if s.len() > 0 {
                let last = s[s.len() - 1];
                assert(s.remove(s.len() - 1) =~= s.drop_last());
                assert forall|x: Event| #[trigger] s.to_multiset().count(x) > 0 implies fires_no_later(
                    last,
                    x,
                ) by {
                    assert(s.contains(x));
                    let j = choose|j: int| 0 <= j < s.len() && s[j] == x;
                }
                assert(s.to_multiset().count(last) > 0) by {
                    assert(s.contains(last));
                }
            }
        }
        r
    }

    pub fn is_empty(&self) -> (b: bool)
        ensures
            b == (self@.len() == 0),
    {
        proof {
            broadcast use vstd::seq_lib::group_to_multiset_ensures;

        }
        self.events.is_empty()
    }
}

} // verus!
