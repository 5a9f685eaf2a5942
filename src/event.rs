use vstd::prelude::*;
use crate::point::{PointOrd, point_lt};
use crate::tent::Tent;

verus! {

/// What happens to a tent at an event. For events at one point, deaths come
/// first, then births, apexes and crossings.
#[derive(Debug, Clone, Copy, PartialEq, Eq, Structural)]
pub enum EventKind {
    Death,
    Birth,
    Middle,
    Intersection,
}

/// One event of the sweep: a point, the tent that it belongs to and, for a
/// crossing, the falling tent that the rising tent `tent` crosses.
#[derive(Debug, Clone, Copy, PartialEq, Eq, Structural)]
pub struct Event {
    pub value: PointOrd,
    pub event_type: EventKind,
    pub parent_mountain_id: usize,
    pub parent_mountain2_id: Option<usize>,
}

/// The precedence of an event kind among events at one point.
pub open spec fn kind_rank(k: EventKind) -> int {
    match k {
        EventKind::Death => 0,
        EventKind::Birth => 1,
        EventKind::Middle => 2,
        EventKind::Intersection => 3,
    }
}

/// The order of `None` before every `Some`, then by the identity.
pub open spec fn opt_lt(a: Option<usize>, b: Option<usize>) -> bool {
    match (a, b) {
        (None, Some(_)) => true,
        (Some(x), Some(y)) => x < y,
        _ => false,
    }
}

/// The order in which the sweep takes events: by point, then by kind, then by
/// the identities of the tents.
pub open spec fn event_lt(a: Event, b: Event) -> bool {
    point_lt(a.value, b.value) || (a.value == b.value && (kind_rank(a.event_type) < kind_rank(
        b.event_type) || (a.event_type == b.event_type && (a.parent_mountain_id
        < b.parent_mountain_id || (a.parent_mountain_id == b.parent_mountain_id && opt_lt(
        a.parent_mountain2_id,
        b.parent_mountain2_id,
    ))))))
}

/// The three events of a tent: its birth, its apex and its death.
pub open spec fn tent_events(t: Tent) -> Seq<Event> {
    seq![
        Event { value: t.birth, event_type: EventKind::Birth, parent_mountain_id: t.id, parent_mountain2_id: None },
        Event { value: t.middle, event_type: EventKind::Middle, parent_mountain_id: t.id, parent_mountain2_id: None },
        Event { value: t.death, event_type: EventKind::Death, parent_mountain_id: t.id, parent_mountain2_id: None },
    ]
}

/// The events of all tents, three per tent, in the order of the tents.
pub open spec fn seed_events(ts: Seq<Tent>) -> Seq<Event>
    decreases ts.len(),
{
    if ts.len() == 0 {
        Seq::empty()
    } else {
        seed_events(ts.drop_last()) + tent_events(ts.last())
    }
}

/// The first index at or after `i` whose event comes strictly after `e`.
pub open spec fn insert_index(q: Seq<Event>, e: Event, i: int) -> int
    decreases q.len() - i,
{
    if i < 0 || i >= q.len() {
        q.len() as int
    } else if event_lt(q[i], e) {
        i
    } else {
        insert_index(q, e, i + 1)
    }
}

/// A queue held from the last event to the first, with `e` put in its place.
pub open spec fn insert_event(q: Seq<Event>, e: Event) -> Seq<Event> {
    q.insert(insert_index(q, e, 0), e)
}

/// The queue that holds the events `es`, put in one by one.
pub open spec fn queue_of(es: Seq<Event>) -> Seq<Event>
    decreases es.len(),
{
    if es.len() == 0 {
        Seq::empty()
    } else {
        insert_event(queue_of(es.drop_last()), es.last())
    }
}

/// The place of an insertion lies within the queue.
pub proof fn lemma_insert_index_bounds(q: Seq<Event>, e: Event, i: int)
    requires
        0 <= i <= q.len(),
    ensures
        i <= insert_index(q, e, i) <= q.len(),
    decreases q.len() - i,
{
    if i < q.len() && !event_lt(q[i], e) {
        lemma_insert_index_bounds(q, e, i + 1);
    }
}

/// Events held from the last to the first: none comes before a later one.
pub open spec fn queue_sorted(q: Seq<Event>) -> bool {
    forall|i: int, j: int| 0 <= i < j < q.len() ==> !event_lt(#[trigger] q[i], #[trigger] q[j])
}

/// Every event of the queue lies at or after the point `p`.
pub open spec fn queue_from(q: Seq<Event>, p: PointOrd) -> bool {
    forall|i: int| 0 <= i < q.len() ==> !point_lt(#[trigger] q[i].value, p)
}

proof fn lemma_event_lt_order(a: Event, b: Event, c: Event)
    ensures
        event_lt(a, b) && event_lt(b, c) ==> event_lt(a, c),
        event_lt(a, b) ==> !event_lt(b, a),
        !event_lt(a, b) && !event_lt(b, a) ==> a == b,
{
}

proof fn lemma_insert_index_facts(q: Seq<Event>, e: Event, i: int)
    requires
        0 <= i <= q.len(),
    ensures
        forall|m: int| i <= m < insert_index(q, e, i) ==> !event_lt(#[trigger] q[m], e),
        insert_index(q, e, i) < q.len() ==> event_lt(q[insert_index(q, e, i)], e),
        i <= insert_index(q, e, i) <= q.len(),
    decreases q.len() - i,
{
    if i < q.len() && !event_lt(q[i], e) {
        lemma_insert_index_facts(q, e, i + 1);
    }
}

/// Putting an event at or after `p` into a queue held in order, whose events
/// all lie at or after `p`, keeps both facts.
pub proof fn lemma_insert_sorted(q: Seq<Event>, e: Event, p: PointOrd)
    requires
        queue_sorted(q),
        queue_from(q, p),
        !point_lt(e.value, p),
    ensures
        queue_sorted(insert_event(q, e)),
        queue_from(insert_event(q, e), p),
{
    lemma_insert_index_facts(q, e, 0);
    let idx = insert_index(q, e, 0);
    let r = insert_event(q, e);
    assert forall|i: int, j: int| 0 <= i < j < r.len() implies !event_lt(#[trigger] r[i], #[trigger] r[j]) by {
        if j < idx {
            assert(r[i] == q[i] && r[j] == q[j]);
        } else if j == idx {
            assert(r[i] == q[i] && r[j] == e);
        } else if i > idx {
            assert(r[i] == q[i - 1] && r[j] == q[j - 1]);
        } else if i == idx {
            assert(r[i] == e && r[j] == q[j - 1]);
            lemma_event_lt_order(q[j - 1], q[idx], e);
            lemma_event_lt_order(e, q[j - 1], q[idx]);
            lemma_event_lt_order(q[j - 1], e, q[idx]);
        } else {
            assert(r[i] == q[i] && r[j] == q[j - 1]);
        }
    }
    assert forall|i: int| 0 <= i < r.len() implies !point_lt(#[trigger] r[i].value, p) by {
        if i < idx {
            assert(r[i] == q[i]);
        } else if i > idx {
            assert(r[i] == q[i - 1]);
        }
    }
}

/// The queue built from any events is held in order.
pub proof fn lemma_queue_of_sorted(es: Seq<Event>, p: PointOrd)
    requires
        forall|i: int| 0 <= i < es.len() ==> !point_lt(#[trigger] es[i].value, p),
    ensures
        queue_sorted(queue_of(es)),
        queue_from(queue_of(es), p),
    decreases es.len(),
{
    if es.len() > 0 {
        let init = es.drop_last();
        assert forall|i: int| 0 <= i < init.len() implies !point_lt(#[trigger] init[i].value, p) by {
            assert(init[i] == es[i]);
        }
        lemma_queue_of_sorted(init, p);
        lemma_insert_sorted(queue_of(init), es.last(), p);
    }
}

/// Whether `a` comes strictly before `b` in the order of the sweep.
pub fn event_less(a: &Event, b: &Event) -> (r: bool)
    ensures
        r == event_lt(*a, *b),
{
    if a.value.less_than(&b.value) {
        return true;
    }
    if a.value != b.value {
        return false;
    }
    let ka: u8 = match a.event_type {
        EventKind::Death => 0,
        EventKind::Birth => 1,
        EventKind::Middle => 2,
        EventKind::Intersection => 3,
    };
    let kb: u8 = match b.event_type {
        EventKind::Death => 0,
        EventKind::Birth => 1,
        EventKind::Middle => 2,
        EventKind::Intersection => 3,
    };
    if ka != kb {
        return ka < kb;
    }
    if a.parent_mountain_id != b.parent_mountain_id {
        return a.parent_mountain_id < b.parent_mountain_id;
    }
    match (a.parent_mountain2_id, b.parent_mountain2_id) {
        (None, Some(_)) => true,
        (Some(x), Some(y)) => x < y,
        _ => false,
    }
}

/// Puts `e` into a queue held from the last event to the first, after the
/// events that do not come after it.
pub fn push_event(queue: &mut Vec<Event>, e: Event)
    ensures
        final(queue)@ == insert_event(old(queue)@, e),
{
    let mut i: usize = 0;
    while i < queue.len() && !event_less(&queue[i], &e)
        invariant
            i <= queue.len(),
            queue@ == old(queue)@,
            insert_index(queue@, e, 0) == insert_index(queue@, e, i as int),
        decreases queue.len() - i,
    {
        i += 1;
    }
    queue.insert(i, e);
}

/// The three events of every tent, in the order of the tents.
pub fn generate_initial_events(mountains: &Vec<Tent>) -> (r: Vec<Event>)
    ensures
        r@ == seed_events(mountains@),
{
    let mut r: Vec<Event> = Vec::new();
    let mut i: usize = 0;
    while i < mountains.len()
        invariant
            i <= mountains.len(),
            r@ == seed_events(mountains@.take(i as int)),
        decreases mountains.len() - i,
    {
        let ghost after = mountains@.take(i as int + 1);
        assert(after.drop_last() == mountains@.take(i as int));
        let t = mountains[i];
        r.push(Event { value: t.birth, event_type: EventKind::Birth, parent_mountain_id: t.id, parent_mountain2_id: None });
        r.push(Event { value: t.middle, event_type: EventKind::Middle, parent_mountain_id: t.id, parent_mountain2_id: None });
        r.push(Event { value: t.death, event_type: EventKind::Death, parent_mountain_id: t.id, parent_mountain2_id: None });
        assert(r@ =~= seed_events(after));
        i += 1;
    }
    assert(mountains@.take(i as int) == mountains@);
    r
}

/// The queue of the sweep, holding `events` from the last to the first.
pub fn event_queue(events: &Vec<Event>) -> (q: Vec<Event>)
    ensures
        q@ == queue_of(events@),
{
    let mut q: Vec<Event> = Vec::new();
    let mut i: usize = 0;
    while i < events.len()
        invariant
            i <= events.len(),
            q@ == queue_of(events@.take(i as int)),
        decreases events.len() - i,
    {
        let ghost after = events@.take(i as int + 1);
        assert(after.drop_last() == events@.take(i as int));
        push_event(&mut q, events[i]);
        i += 1;
    }
    assert(events@.take(i as int) == events@);
    q
}

} // verus!
