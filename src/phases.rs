use vstd::prelude::*;
use crate::point::{PointOrd, point_lt};
use crate::tent::Tent;
use crate::event::{
    Event, EventKind, event_lt, insert_event, insert_index, lemma_insert_index_bounds, queue_of,
    seed_events, tent_events, lemma_queue_of_sorted,
};
use crate::sweep::{
    born, turned, swapped,
    SweepState, rank_of, in_sweep_order, schedule, probe, ranks_after_death, sweep_step,
    lemma_step_in_order, initial,
};
use crate::ranks::lemma_step_bounded;
use crate::tent::{BirthDeath, spec_crossing, spec_proper_crossing, finite_pairs, tents_of};
use crate::ranks::ranks_bounded;
use crate::critical::{shaped, births_before_deaths};

verus! {

/// The event of kind `kind` (a birth, an apex or a death) of tent `u`.
pub open spec fn seed_of(s: SweepState, u: int, kind: EventKind) -> Event {
    Event {
        value: match kind {
            EventKind::Birth => s.tents[u].birth,
            EventKind::Middle => s.tents[u].middle,
            _ => s.tents[u].death,
        },
        event_type: kind,
        parent_mountain_id: u as usize,
        parent_mountain2_id: None,
    }
}

/// Whether the birth of tent `u` is still queued.
pub open spec fn has_birth(s: SweepState, u: int) -> bool {
    s.queue.contains(seed_of(s, u, EventKind::Birth))
}

/// Whether the apex of tent `u` is still queued.
pub open spec fn has_middle(s: SweepState, u: int) -> bool {
    s.queue.contains(seed_of(s, u, EventKind::Middle))
}

/// Whether the death of tent `u` is still queued.
pub open spec fn has_death(s: SweepState, u: int) -> bool {
    s.queue.contains(seed_of(s, u, EventKind::Death))
}

/// Where each tent stands: unborn while its birth is queued, rising until its
/// apex is taken, alive until its death is taken.
pub open spec fn phase_ok(s: SweepState, u: int) -> bool {
    &&& has_birth(s, u) ==> has_middle(s, u) && s.tents[u].position is None
    &&& has_middle(s, u) ==> has_death(s, u) && s.tents[u].slope_rising
    &&& !has_birth(s, u) && has_death(s, u) ==> s.tents[u].position is Some
}

/// The queued events: births, apexes and deaths of tents, each once, and
/// crossings on the rising piece of a tent whose apex is still to come.
pub open spec fn queue_ok(s: SweepState) -> bool {
    &&& forall|i: int, j: int|
        0 <= i < j < s.queue.len() && (#[trigger] s.queue[i]).event_type != EventKind::Intersection
            ==> s.queue[i] != #[trigger] s.queue[j]
    &&& forall|i: int| 0 <= i < s.queue.len() ==> {
        let e = #[trigger] s.queue[i];
        let u = e.parent_mountain_id as int;
        &&& u < s.tents.len()
        &&& e.event_type != EventKind::Intersection ==> e == seed_of(s, u, e.event_type)
        &&& e.event_type == EventKind::Intersection ==> point_lt(s.tents[u].birth, e.value)
            && point_lt(e.value, s.tents[u].middle) && has_middle(s, u)
    }
}

/// The tents are those of `pairs`, each knowing its own index.
pub open spec fn tents_ok(s: SweepState, pairs: Seq<(i32, i32)>) -> bool {
    &&& births_before_deaths(pairs)
    &&& s.tents.len() == pairs.len()
    &&& forall|u: int| 0 <= u < pairs.len() ==> shaped(#[trigger] s.tents[u], pairs[u].0, pairs[u].1)
        && s.tents[u].id == u
}

/// The facts that make every event of the sweep find its tent.
pub open spec fn phases(s: SweepState, pairs: Seq<(i32, i32)>) -> bool {
    &&& tents_ok(s, pairs)
    &&& ranks_bounded(s)
    &&& in_sweep_order(s)
    &&& queue_ok(s)
    &&& forall|u: int| 0 <= u < s.tents.len() ==> #[trigger] phase_ok(s, u)
    &&& alive_rising_ok(s)
}

/// A ranked tent that still rises has its apex queued.
pub open spec fn alive_rising_ok(s: SweepState) -> bool {
    forall|j: int|
        0 <= j < s.status.len() && (#[trigger] s.status[j]) < s.tents.len() && s.tents[s.status[j] as int].slope_rising
            ==> has_middle(s, s.status[j] as int)
}

/// The facts of `phases` that a handler keeps before it schedules crossings.
pub open spec fn handled_ok(s: SweepState) -> bool {
    &&& queue_ok(s)
    &&& forall|u: int| 0 <= u < s.tents.len() ==> #[trigger] phase_ok(s, u)
    &&& alive_rising_ok(s)
}

/// A crossing event that may join the queue.
pub open spec fn crossing_ok(s: SweepState, ev: Event) -> bool {
    let u = ev.parent_mountain_id as int;
    &&& ev.event_type == EventKind::Intersection
    &&& u < s.tents.len()
    &&& point_lt(s.tents[u].birth, ev.value)
    &&& point_lt(ev.value, s.tents[u].middle)
    &&& has_middle(s, u)
}

proof fn lemma_insert_contains(q: Seq<Event>, e: Event, x: Event)
    ensures
        insert_event(q, e).contains(x) == (q.contains(x) || x == e),
{
    lemma_insert_index_bounds(q, e, 0);
    let idx = insert_index(q, e, 0);
    let r = insert_event(q, e);
    if q.contains(x) {
        let i = choose|i: int| 0 <= i < q.len() && q[i] == x;
        if i < idx {
            assert(r[i] == x);
        } else {
            assert(r[i + 1] == x);
        }
    }
    if x == e {
        assert(r[idx] == x);
    }
    if r.contains(x) {
        let i = choose|i: int| 0 <= i < r.len() && r[i] == x;
        if i < idx {
            assert(q[i] == x);
        } else if i > idx {
            assert(q[i - 1] == x);
        }
    }
}

proof fn lemma_schedule_phases(s: SweepState, e: Option<Event>)
    requires
        handled_ok(s),
        e matches Some(ev) ==> crossing_ok(s, ev),
    ensures
        handled_ok(schedule(s, e)),
        schedule(s, e).tents == s.tents,
        schedule(s, e).status == s.status,
        forall|x: Event| x.event_type != EventKind::Intersection ==> (schedule(s, e).queue.contains(x)
            == #[trigger] s.queue.contains(x)),
{
    match e {
        Some(ev) => if s.budget > 0 {
            let r = schedule(s, e);
            lemma_insert_index_bounds(s.queue, ev, 0);
            let idx = insert_index(s.queue, ev, 0);
            let q = s.queue;
            let rq = r.queue;
            assert forall|x: Event| x.event_type != EventKind::Intersection implies (rq.contains(x) == #[trigger] q.contains(x)) by {
                lemma_insert_contains(q, ev, x);
            }
            assert forall|u: int, k: EventKind| k != EventKind::Intersection implies (rq.contains(#[trigger] seed_of(r, u, k)) == q.contains(seed_of(s, u, k))) by {
                lemma_insert_contains(q, ev, seed_of(s, u, k));
            }
            assert forall|i: int, j: int|
                0 <= i < j < rq.len() && (#[trigger] rq[i]).event_type != EventKind::Intersection implies rq[i] != #[trigger] rq[j] by {
                if j < idx {
                    assert(rq[i] == q[i] && rq[j] == q[j]);
                } else if j == idx {
                } else if i < idx {
                    assert(rq[i] == q[i] && rq[j] == q[j - 1]);
                } else if i > idx {
                    assert(rq[i] == q[i - 1] && rq[j] == q[j - 1]);
                }
            }
            assert forall|i: int| 0 <= i < rq.len() implies {
                let e = #[trigger] rq[i];
                let u = e.parent_mountain_id as int;
                &&& u < r.tents.len()
                &&& e.event_type != EventKind::Intersection ==> e == seed_of(r, u, e.event_type)
                &&& e.event_type == EventKind::Intersection ==> point_lt(r.tents[u].birth, e.value)
                    && point_lt(e.value, r.tents[u].middle) && has_middle(r, u)
            } by {
                if i < idx {
                    assert(rq[i] == q[i]);
                } else if i > idx {
                    assert(rq[i] == q[i - 1]);
                }
            }
            assert forall|u: int| 0 <= u < r.tents.len() implies #[trigger] phase_ok(r, u) by {
                assert(phase_ok(s, u));
            }
        },
        None => {},
    }
}

/// The event that the sweep takes next finds its tent: an apex or a death
/// finds it ranked, and a crossing finds its rising tent ranked and rising.
pub proof fn lemma_next_event_ranked(s: SweepState, pairs: Seq<(i32, i32)>)
    requires
        s.queue.len() > 0,
        phases(s, pairs),
    ensures
        ({
            let e = s.queue.last();
            let t = e.parent_mountain_id;
            &&& e.event_type == EventKind::Middle ==> rank_of(s, t) is Some
            &&& e.event_type == EventKind::Death ==> rank_of(s, t) is Some
            &&& e.event_type == EventKind::Intersection ==> rank_of(s, t) is Some
                && s.tents[t as int].slope_rising
        }),
{
    let n = s.queue.len() - 1;
    let e = s.queue[n];
    let u = e.parent_mountain_id as int;
    assert(u < s.tents.len());
    assert(shaped(s.tents[u], pairs[u].0, pairs[u].1));
    assert(pairs[u].0 < pairs[u].1);
    assert(phase_ok(s, u));
    let b = seed_of(s, u, EventKind::Birth);
    let m = seed_of(s, u, EventKind::Middle);
    let d = seed_of(s, u, EventKind::Death);
    assert(event_lt(b, m));
    assert(event_lt(m, d));
    if has_birth(s, u) && e.event_type != EventKind::Birth {
        let i = choose|i: int| 0 <= i < s.queue.len() && s.queue[i] == b;
        if i < n {
            assert(!event_lt(s.queue[i], s.queue[n]));
        }
        if e.event_type == EventKind::Intersection {
            assert(point_lt(b.value, e.value));
        }
    }
    if e.event_type == EventKind::Death && has_middle(s, u) {
        let i = choose|i: int| 0 <= i < s.queue.len() && s.queue[i] == m;
        if i < n {
            assert(!event_lt(s.queue[i], s.queue[n]));
        }
    }
    if e.event_type == EventKind::Middle {
        assert(s.queue.contains(m)) by {
            assert(s.queue[n] == m);
        }
    }
    if e.event_type == EventKind::Death {
        assert(s.queue.contains(d)) by {
            assert(s.queue[n] == d);
        }
    }
    let r = s.tents[u].position;
    if r is Some {
        let j = r->0 as int;
        assert(j < s.status.len() && s.status[j] == u);
    }
}

proof fn lemma_probe_ok(s: SweepState, lower: int, now: PointOrd)
    requires
        alive_rising_ok(s),
    ensures
        probe(s.tents, s.status, lower, now) matches Some(ev) ==> crossing_ok(s, ev),
{
    match probe(s.tents, s.status, lower, now) {
        Some(ev) => {
            let li = s.status[lower] as int;
            let lo = s.tents[li];
            let up = s.tents[s.status[lower - 1] as int];
            assert(spec_crossing(lo, up) == spec_proper_crossing(lo, up));
            assert(s.status[lower] < s.tents.len() && s.tents[s.status[lower] as int].slope_rising);
        },
        None => {},
    }
}

/// Taking the next event out of the queue: what stays queued, and where the
/// tent of that event stood.
proof fn lemma_pop(s: SweepState, pairs: Seq<(i32, i32)>)
    requires
        s.queue.len() > 0,
        phases(s, pairs),
    ensures
        ({
            let e = s.queue.last();
            let s0 = SweepState { queue: s.queue.drop_last(), ..s };
            let t = e.parent_mountain_id as int;
            &&& queue_ok(s0)
            &&& forall|x: Event| x.event_type != EventKind::Intersection ==> (s0.queue.contains(x)
                == (#[trigger] s.queue.contains(x) && x != e))
            &&& t < s.tents.len()
            &&& e.event_type != EventKind::Intersection ==> e == seed_of(s, t, e.event_type)
            &&& (e.event_type == EventKind::Middle || e.event_type == EventKind::Death) ==> !has_birth(s, t)
            &&& e.event_type == EventKind::Death ==> !has_middle(s, t)
            &&& e.event_type == EventKind::Intersection ==> has_middle(s, t)
        }),
{
    let n = s.queue.len() - 1;
    let q = s.queue;
    let e = q[n];
    let s0 = SweepState { queue: q.drop_last(), ..s };
    let t = e.parent_mountain_id as int;
    assert(t < s.tents.len());
    assert(shaped(s.tents[t], pairs[t].0, pairs[t].1));
    assert(pairs[t].0 < pairs[t].1);
    assert forall|x: Event| x.event_type != EventKind::Intersection implies (s0.queue.contains(x)
        == (#[trigger] q.contains(x) && x != e)) by {
        if s0.queue.contains(x) {
            let i = choose|i: int| 0 <= i < s0.queue.len() && s0.queue[i] == x;
            assert(q[i] == x);
            assert(q[i] != q[n]);
        }
        if q.contains(x) && x != e {
            let i = choose|i: int| 0 <= i < q.len() && q[i] == x;
            assert(i < n);
            assert(s0.queue[i] == x);
        }
    }
    let b = seed_of(s, t, EventKind::Birth);
    let m = seed_of(s, t, EventKind::Middle);
    assert(event_lt(b, m));
    assert(event_lt(m, seed_of(s, t, EventKind::Death)));
    if q.contains(b) && (e.event_type == EventKind::Middle || e.event_type == EventKind::Death) {
        let i = choose|i: int| 0 <= i < q.len() && q[i] == b;
        if i < n {
            assert(!event_lt(q[i], q[n]));
        }
    }
    if q.contains(m) && e.event_type == EventKind::Death {
        let i = choose|i: int| 0 <= i < q.len() && q[i] == m;
        if i < n {
            assert(!event_lt(q[i], q[n]));
        }
    }
    assert forall|i: int| 0 <= i < s0.queue.len() implies {
        let x = #[trigger] s0.queue[i];
        let u = x.parent_mountain_id as int;
        &&& u < s0.tents.len()
        &&& x.event_type != EventKind::Intersection ==> x == seed_of(s0, u, x.event_type)
        &&& x.event_type == EventKind::Intersection ==> point_lt(s0.tents[u].birth, x.value)
            && point_lt(x.value, s0.tents[u].middle) && has_middle(s0, u)
    } by {
        let x = q[i];
        assert(s0.queue[i] == x);
        let u = x.parent_mountain_id as int;
        if x.event_type == EventKind::Intersection {
            let mu = seed_of(s, u, EventKind::Middle);
            assert(q.contains(mu));
            if mu == e {
                assert(!event_lt(q[i], q[n]));
                assert(event_lt(x, mu));
            }
            assert(s0.queue.contains(mu));
        }
    }
    assert forall|i: int, j: int|
        0 <= i < j < s0.queue.len() && (#[trigger] s0.queue[i]).event_type != EventKind::Intersection
            implies s0.queue[i] != #[trigger] s0.queue[j] by {
        assert(s0.queue[i] == q[i] && s0.queue[j] == q[j]);
    }
}

proof fn lemma_birth_phases(s: SweepState, pairs: Seq<(i32, i32)>)
    requires
        s.queue.len() > 0,
        phases(s, pairs),
        s.queue.last().event_type == EventKind::Birth,
    ensures
        handled_ok(sweep_step(s)),
        tents_ok(sweep_step(s), pairs),
{
    let e = s.queue.last();
    let p = e.value;
    let s0 = SweepState { queue: s.queue.drop_last(), ..s };
    let t = e.parent_mountain_id;
    let ti = t as int;
    lemma_pop(s, pairs);
    lemma_next_event_ranked(s, pairs);
    assert(rank_of(s0, t) == rank_of(s, t));
    assert forall|u: int, k: EventKind| #![all_triggers] 0 <= u < s.tents.len() && k != EventKind::Intersection ==> seed_of(s0, u, k) == seed_of(s, u, k) by {}
        assert(has_birth(s, ti)) by {
            assert(s.queue[s.queue.len() - 1] == e);
        }
        assert(phase_ok(s, ti));
        let pos = s0.status.len();
        let s1 = born(s0, e);
        assert forall|u: int, k: EventKind| #![all_triggers] 0 <= u < s.tents.len() && k != EventKind::Intersection ==> seed_of(s1, u, k) == seed_of(s, u, k) by {}
        assert forall|j: int| 0 <= j < s0.status.len() implies s0.status[j] != t by {
            assert(s.tents[s.status[j] as int].position == Some(j as usize));
        }
        assert forall|u: int| 0 <= u < s1.tents.len() implies #[trigger] phase_ok(s1, u) by {
            assert(phase_ok(s, u));
        }
        assert(alive_rising_ok(s1)) by {
            assert forall|j: int|
                0 <= j < s1.status.len() && (#[trigger] s1.status[j]) < s1.tents.len() && s1.tents[s1.status[j] as int].slope_rising
                    implies has_middle(s1, s1.status[j] as int) by {
                if j < pos {
                    assert(s1.status[j] == s.status[j]);
                    assert(has_middle(s, s.status[j] as int));
                }
            }
        }
        assert(queue_ok(s1));
        lemma_probe_ok(s1, pos as int, p);
        lemma_schedule_phases(s1, probe(s1.tents, s1.status, pos as int, p));
}

proof fn lemma_middle_phases(s: SweepState, pairs: Seq<(i32, i32)>)
    requires
        s.queue.len() > 0,
        phases(s, pairs),
        s.queue.last().event_type == EventKind::Middle,
    ensures
        handled_ok(sweep_step(s)),
        tents_ok(sweep_step(s), pairs),
{
    let e = s.queue.last();
    let p = e.value;
    let s0 = SweepState { queue: s.queue.drop_last(), ..s };
    let t = e.parent_mountain_id;
    let ti = t as int;
    lemma_pop(s, pairs);
    lemma_next_event_ranked(s, pairs);
    assert(rank_of(s0, t) == rank_of(s, t));
    assert forall|u: int, k: EventKind| #![all_triggers] 0 <= u < s.tents.len() && k != EventKind::Intersection ==> seed_of(s0, u, k) == seed_of(s, u, k) by {}
        let j = rank_of(s0, t)->0;
        let s1 = turned(s0, e, j);
        assert forall|u: int, k: EventKind| #![all_triggers] 0 <= u < s.tents.len() && k != EventKind::Intersection ==> seed_of(s1, u, k) == seed_of(s, u, k) by {}
        assert forall|u: int| 0 <= u < s1.tents.len() implies #[trigger] phase_ok(s1, u) by {
            assert(phase_ok(s, u));
        }
        assert(alive_rising_ok(s1)) by {
            assert forall|q: int|
                0 <= q < s1.status.len() && (#[trigger] s1.status[q]) < s1.tents.len() && s1.tents[s1.status[q] as int].slope_rising
                    implies has_middle(s1, s1.status[q] as int) by {
                assert(has_middle(s, s.status[q] as int));
            }
        }
        assert(queue_ok(s1));
        lemma_probe_ok(s1, j + 1, p);
        lemma_schedule_phases(s1, probe(s1.tents, s1.status, j + 1, p));
}

proof fn lemma_death_phases(s: SweepState, pairs: Seq<(i32, i32)>)
    requires
        s.queue.len() > 0,
        phases(s, pairs),
        s.queue.last().event_type == EventKind::Death,
    ensures
        handled_ok(sweep_step(s)),
        tents_ok(sweep_step(s), pairs),
{
    let e = s.queue.last();
    let p = e.value;
    let s0 = SweepState { queue: s.queue.drop_last(), ..s };
    let t = e.parent_mountain_id;
    let ti = t as int;
    lemma_pop(s, pairs);
    lemma_next_event_ranked(s, pairs);
    assert(rank_of(s0, t) == rank_of(s, t));
    assert forall|u: int, k: EventKind| #![all_triggers] 0 <= u < s.tents.len() && k != EventKind::Intersection ==> seed_of(s0, u, k) == seed_of(s, u, k) by {}
        let j = rank_of(s0, t)->0;
        let r = sweep_step(s);
        assert(r.status == s0.status.remove(j));
        assert(r.tents == ranks_after_death(s0.tents, t, j as usize));
        assert(r.queue == s0.queue);
        assert forall|u: int, k: EventKind| #![all_triggers] 0 <= u < s.tents.len() && k != EventKind::Intersection ==> seed_of(r, u, k) == seed_of(s, u, k) by {}
        assert forall|u: int| 0 <= u < r.tents.len() implies #[trigger] phase_ok(r, u) by {
            assert(phase_ok(s, u));
        }
        assert(alive_rising_ok(r)) by {
            assert forall|q: int|
                0 <= q < r.status.len() && (#[trigger] r.status[q]) < r.tents.len() && r.tents[r.status[q] as int].slope_rising
                    implies has_middle(r, r.status[q] as int) by {
                if q < j {
                    assert(r.status[q] == s.status[q]);
                    assert(has_middle(s, s.status[q] as int));
                } else {
                    assert(r.status[q] == s.status[q + 1]);
                    assert(s.tents[s.status[q + 1] as int].position == Some((q + 1) as usize));
                    assert(has_middle(s, s.status[q + 1] as int));
                }
            }
        }
        assert(queue_ok(r));
}

proof fn lemma_intersection_phases(s: SweepState, pairs: Seq<(i32, i32)>)
    requires
        s.queue.len() > 0,
        phases(s, pairs),
        s.queue.last().event_type == EventKind::Intersection,
    ensures
        handled_ok(sweep_step(s)),
        tents_ok(sweep_step(s), pairs),
{
    let e = s.queue.last();
    let p = e.value;
    let s0 = SweepState { queue: s.queue.drop_last(), ..s };
    let t = e.parent_mountain_id;
    let ti = t as int;
    lemma_pop(s, pairs);
    lemma_next_event_ranked(s, pairs);
    assert(rank_of(s0, t) == rank_of(s, t));
    assert forall|u: int, k: EventKind| #![all_triggers] 0 <= u < s.tents.len() && k != EventKind::Intersection ==> seed_of(s0, u, k) == seed_of(s, u, k) by {}
        assert forall|u: int| 0 <= u < s0.tents.len() implies #[trigger] phase_ok(s0, u) by {
            assert(phase_ok(s, u));
        }
        assert(alive_rising_ok(s0)) by {
            assert forall|q: int|
                0 <= q < s0.status.len() && (#[trigger] s0.status[q]) < s0.tents.len() && s0.tents[s0.status[q] as int].slope_rising
                    implies has_middle(s0, s0.status[q] as int) by {
                assert(has_middle(s, s.status[q] as int));
            }
        }
        assert(handled_ok(s0));
        let a = t;
        match (rank_of(s0, a), e.parent_mountain2_id) {
            (Some(j), Some(b)) => if j > 0 && s0.status[j - 1] == b && b < s0.tents.len()
                && s0.tents[a as int].slope_rising && !s0.tents[b as int].slope_rising {
                let s1 = swapped(s0, e, j, b);
                assert(s.tents[b as int].position == Some((j - 1) as usize));
                assert forall|u: int, k: EventKind| #![all_triggers] 0 <= u < s.tents.len() && k != EventKind::Intersection ==> seed_of(s1, u, k) == seed_of(s, u, k) by {}
                assert forall|u: int| 0 <= u < s1.tents.len() implies #[trigger] phase_ok(s1, u) by {
                    assert(phase_ok(s, u));
                }
                assert(alive_rising_ok(s1)) by {
                    assert forall|q: int|
                        0 <= q < s1.status.len() && (#[trigger] s1.status[q]) < s1.tents.len() && s1.tents[s1.status[q] as int].slope_rising
                            implies has_middle(s1, s1.status[q] as int) by {
                        if q == j - 1 {
                            assert(has_middle(s, s.status[j] as int));
                        } else if q == j {
                            assert(has_middle(s, s.status[j - 1] as int));
                        } else {
                            assert(has_middle(s, s.status[q] as int));
                        }
                    }
                }
                assert(queue_ok(s1));
                let s2 = schedule(s1, probe(s1.tents, s1.status, j - 1, p));
                lemma_probe_ok(s1, j - 1, p);
                lemma_schedule_phases(s1, probe(s1.tents, s1.status, j - 1, p));
                lemma_probe_ok(s2, j + 1, p);
                lemma_schedule_phases(s2, probe(s2.tents, s2.status, j + 1, p));
            } else {
                assert forall|u: int| 0 <= u < s0.tents.len() implies #[trigger] phase_ok(s0, u) by {
                    assert(phase_ok(s, u));
                }
            },
            _ => {},
        }
}

proof fn lemma_step_phases(s: SweepState, pairs: Seq<(i32, i32)>)
    requires
        s.queue.len() > 0,
        phases(s, pairs),
    ensures
        phases(sweep_step(s), pairs),
{
    lemma_step_bounded(s);
    lemma_step_in_order(s);
    match s.queue.last().event_type {
        EventKind::Birth => lemma_birth_phases(s, pairs),
        EventKind::Middle => lemma_middle_phases(s, pairs),
        EventKind::Death => lemma_death_phases(s, pairs),
        EventKind::Intersection => lemma_intersection_phases(s, pairs),
    }
}

/// The state after `n` steps of the sweep from `s`.
pub open spec fn run_steps(s: SweepState, n: nat) -> SweepState
    decreases n,
{
    if n == 0 {
        s
    } else {
        run_steps(sweep_step(s), (n - 1) as nat)
    }
}

proof fn lemma_run_phases(s: SweepState, pairs: Seq<(i32, i32)>, n: nat)
    requires
        phases(s, pairs),
    ensures
        phases(run_steps(s, n), pairs),
    decreases n,
{
    if n > 0 {
        if s.queue.len() > 0 {
            lemma_step_phases(s, pairs);
        }
        lemma_run_phases(sweep_step(s), pairs, (n - 1) as nat);
    }
}

proof fn lemma_seed_events_index(ts: Seq<Tent>)
    ensures
        seed_events(ts).len() == 3 * ts.len(),
        forall|u: int, c: int| 0 <= u < ts.len() && 0 <= c < 3 ==> #[trigger] seed_events(ts)[3 * u + c] == tent_events(ts[u])[c],
    decreases ts.len(),
{
    if ts.len() > 0 {
        let init = ts.drop_last();
        lemma_seed_events_index(init);
        assert forall|u: int, c: int| 0 <= u < ts.len() && 0 <= c < 3 implies #[trigger] seed_events(ts)[3 * u + c] == tent_events(ts[u])[c] by {
            if u < init.len() {
                assert(seed_events(ts)[3 * u + c] == seed_events(init)[3 * u + c]);
                assert(init[u] == ts[u]);
            }
        }
    }
}

proof fn lemma_queue_of_members(es: Seq<Event>)
    requires
        es.no_duplicates(),
    ensures
        queue_of(es).no_duplicates(),
        forall|x: Event| #[trigger] queue_of(es).contains(x) == es.contains(x),
    decreases es.len(),
{
    if es.len() > 0 {
        let init = es.drop_last();
        let x = es.last();
        assert(init.no_duplicates());
        lemma_queue_of_members(init);
        assert forall|y: Event| #[trigger] es.contains(y) == (init.contains(y) || y == x) by {
            if es.contains(y) {
                let i = choose|i: int| 0 <= i < es.len() && es[i] == y;
                if i < init.len() {
                    assert(init[i] == y);
                }
            }
            if init.contains(y) {
                let i = choose|i: int| 0 <= i < init.len() && init[i] == y;
                assert(es[i] == y);
            }
            if y == x {
                assert(es[es.len() - 1] == y);
            }
        }
        assert(!init.contains(x)) by {
            if init.contains(x) {
                let i = choose|i: int| 0 <= i < init.len() && init[i] == x;
                assert(es[i] == es[es.len() - 1]);
            }
        }
        let q0 = queue_of(init);
        assert forall|y: Event| #[trigger] queue_of(es).contains(y) == es.contains(y) by {
            lemma_insert_contains(q0, x, y);
        }
        lemma_insert_index_bounds(q0, x, 0);
        let idx = insert_index(q0, x, 0);
        let q = queue_of(es);
        assert forall|i: int, j: int| 0 <= i < q.len() && 0 <= j < q.len() && i != j implies q[i] != q[j] by {
            if i != idx && j != idx {
                let i0 = if i < idx { i } else { i - 1 };
                let j0 = if j < idx { j } else { j - 1 };
                assert(q[i] == q0[i0] && q[j] == q0[j0]);
            } else if i == idx {
                let j0 = if j < idx { j } else { j - 1 };
                assert(q[j] == q0[j0]);
                assert(q0.contains(q0[j0]));
            } else {
                let i0 = if i < idx { i } else { i - 1 };
                assert(q[i] == q0[i0]);
                assert(q0.contains(q0[i0]));
            }
        }
    }
}

proof fn lemma_initial_phases(ps: Seq<BirthDeath>, k: nat)
    requires
        births_before_deaths(finite_pairs(ps)),
        finite_pairs(ps).len() <= usize::MAX,
    ensures
        phases(initial(ps, k), finite_pairs(ps)),
{
    let pairs = finite_pairs(ps);
    let s = initial(ps, k);
    let ts = tents_of(ps);
    let es = seed_events(ts);
    lemma_seed_events_index(ts);
    assert forall|u: int| 0 <= u < pairs.len() implies shaped(#[trigger] s.tents[u], pairs[u].0, pairs[u].1)
        && s.tents[u].id == u by {}
    assert(tents_ok(s, pairs));
    assert forall|i: int| 0 <= i < es.len() implies {
        let e = #[trigger] es[i];
        let u = e.parent_mountain_id as int;
        u < ts.len() && e.event_type != EventKind::Intersection && e == seed_of(s, u, e.event_type)
            && i == 3 * u + match e.event_type { EventKind::Birth => 0int, EventKind::Middle => 1int, _ => 2int }
    } by {
        let u = i / 3;
        let c = i % 3;
        assert(es[3 * u + c] == tent_events(ts[u])[c]);
    }
    assert(es.no_duplicates()) by {
        assert forall|i: int, j: int| 0 <= i < es.len() && 0 <= j < es.len() && i != j implies es[i] != es[j] by {
            let ei = es[i];
            let ej = es[j];
            if ei == ej {
                assert(i == j);
            }
        }
    }
    lemma_queue_of_members(es);
    let q = s.queue;
    assert forall|u: int, c: int| 0 <= u < ts.len() && 0 <= c < 3 implies q.contains(#[trigger] tent_events(ts[u])[c]) by {
        assert(es[3 * u + c] == tent_events(ts[u])[c]);
    }
    assert forall|u: int| 0 <= u < s.tents.len() implies #[trigger] phase_ok(s, u) by {
        assert(q.contains(tent_events(ts[u])[0]));
        assert(q.contains(tent_events(ts[u])[1]));
        assert(q.contains(tent_events(ts[u])[2]));
        assert(tent_events(ts[u])[0] == seed_of(s, u, EventKind::Birth));
        assert(tent_events(ts[u])[1] == seed_of(s, u, EventKind::Middle));
        assert(tent_events(ts[u])[2] == seed_of(s, u, EventKind::Death));
    }
    assert forall|i: int| 0 <= i < q.len() implies {
        let e = #[trigger] q[i];
        let u = e.parent_mountain_id as int;
        &&& u < s.tents.len()
        &&& e.event_type != EventKind::Intersection ==> e == seed_of(s, u, e.event_type)
        &&& e.event_type == EventKind::Intersection ==> point_lt(s.tents[u].birth, e.value)
            && point_lt(e.value, s.tents[u].middle) && has_middle(s, u)
    } by {
        assert(q.contains(q[i]));
        assert(es.contains(q[i]));
        let j = choose|j: int| 0 <= j < es.len() && es[j] == q[i];
    }
    assert(queue_ok(s));
    let floor = PointOrd { x: i64::MIN, y: i64::MIN };
    lemma_queue_of_sorted(es, floor);
    assert(in_sweep_order(s));
    assert(ranks_bounded(s));
}

/// In every state that the sweep passes through, the next event finds its
/// tent: an apex or a death finds it ranked, and a crossing finds its rising
/// tent ranked and still rising. This holds where each finite pair is born
/// before it dies.
pub proof fn lemma_events_find_their_tents(ps: Seq<BirthDeath>, k: nat, n: nat)
    requires
        births_before_deaths(finite_pairs(ps)),
        finite_pairs(ps).len() <= usize::MAX,
    ensures
        ({
            let s = run_steps(initial(ps, k), n);
            let e = s.queue.last();
            let t = e.parent_mountain_id;
            s.queue.len() > 0 ==> {
                &&& e.event_type == EventKind::Middle ==> rank_of(s, t) is Some
                &&& e.event_type == EventKind::Death ==> rank_of(s, t) is Some
                &&& e.event_type == EventKind::Intersection ==> rank_of(s, t) is Some
                    && s.tents[t as int].slope_rising
            }
        }),
{
    lemma_initial_phases(ps, k);
    lemma_run_phases(initial(ps, k), finite_pairs(ps), n);
    let s = run_steps(initial(ps, k), n);
    if s.queue.len() > 0 {
        lemma_next_event_ranked(s, finite_pairs(ps));
    }
}

} // verus!
