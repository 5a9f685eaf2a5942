use vstd::prelude::*;
use crate::point::PointOrd;
use crate::tent::{BirthDeath, Tent, finite_pairs, tents_of, tent_value, spec_crossing, spec_proper_crossing};
use crate::event::{Event, EventKind, insert_event, queue_of, seed_events, lemma_insert_index_bounds, insert_index};
use crate::sweep::{
    born, turned, swapped,
    SweepState, record, probe, schedule, rank_of, ranks_after_death, sweep_step, measure,
    finish, initial, landscape, lemma_step_measure,
};

verus! {

/// Whether `p` lies on the graph of the tent of one of `pairs`.
pub open spec fn on_some_tent(pairs: Seq<(i32, i32)>, p: PointOrd) -> bool {
    exists|t: int| 0 <= t < pairs.len() && p.y == tent_value(pairs[t].0 as int, pairs[t].1 as int, p.x as int)
}

/// Every pair rises before it falls: its birth comes before its death.
pub open spec fn births_before_deaths(pairs: Seq<(i32, i32)>) -> bool {
    forall|t: int| 0 <= t < pairs.len() ==> (#[trigger] pairs[t]).0 < pairs[t].1
}

/// A tent built from the pair `(b, d)`, whatever its rank and slope.
pub open spec fn shaped(m: Tent, b: i32, d: i32) -> bool {
    &&& m.low == b
    &&& m.high == d
    &&& m.birth == PointOrd { x: (2 * b) as i64, y: 0 }
    &&& m.middle == PointOrd { x: (b + d) as i64, y: (d - b) as i64 }
    &&& m.death == PointOrd { x: (2 * d) as i64, y: 0 }
}

/// The tents are those of `pairs`, and every queued event and every recorded
/// point lies on one of them.
pub open spec fn on_tents(s: SweepState, pairs: Seq<(i32, i32)>) -> bool {
    &&& births_before_deaths(pairs)
    &&& s.tents.len() == pairs.len()
    &&& forall|t: int| 0 <= t < pairs.len() ==> shaped(#[trigger] s.tents[t], pairs[t].0, pairs[t].1)
    &&& forall|i: int| 0 <= i < s.queue.len() ==> on_some_tent(pairs, (#[trigger] s.queue[i]).value)
    &&& forall|i: int, a: int|
        0 <= i < s.layers.len() && 0 <= a < s.layers[i].len() ==> on_some_tent(pairs, #[trigger] s.layers[i][a])
}

proof fn lemma_record_on(layers: Seq<Seq<PointOrd>>, r: int, p: PointOrd, pairs: Seq<(i32, i32)>)
    requires
        on_some_tent(pairs, p),
        forall|i: int, a: int|
            0 <= i < layers.len() && 0 <= a < layers[i].len() ==> on_some_tent(pairs, #[trigger] layers[i][a]),
    ensures
        forall|i: int, a: int|
            0 <= i < record(layers, r, p).len() && 0 <= a < record(layers, r, p)[i].len() ==> on_some_tent(
                pairs,
                #[trigger] record(layers, r, p)[i][a],
            ),
{
    let n = record(layers, r, p);
    assert forall|i: int, a: int| 0 <= i < n.len() && 0 <= a < n[i].len() implies on_some_tent(pairs, #[trigger] n[i][a]) by {
        if i == r && 0 <= r < layers.len() && a < layers[i].len() {
            assert(n[i][a] == layers[i][a]);
        }
    }
}

proof fn lemma_probe_on(s: SweepState, lower: int, now: PointOrd, pairs: Seq<(i32, i32)>)
    requires
        on_tents(s, pairs),
    ensures
        probe(s.tents, s.status, lower, now) matches Some(ev) ==> on_some_tent(pairs, ev.value),
{
    match probe(s.tents, s.status, lower, now) {
        Some(ev) => {
            let li = s.status[lower] as int;
            let lo = s.tents[li];
            let up = s.tents[s.status[lower - 1] as int];
            assert(shaped(lo, pairs[li].0, pairs[li].1));
            assert(pairs[li].0 < pairs[li].1);
            assert(spec_crossing(lo, up) == spec_proper_crossing(lo, up));
            assert(ev.value.y == tent_value(pairs[li].0 as int, pairs[li].1 as int, ev.value.x as int));
        },
        None => {},
    }
}

proof fn lemma_schedule_on(s: SweepState, e: Option<Event>, pairs: Seq<(i32, i32)>)
    requires
        on_tents(s, pairs),
        e matches Some(ev) ==> on_some_tent(pairs, ev.value),
    ensures
        on_tents(schedule(s, e), pairs),
{
    match e {
        Some(ev) => if s.budget > 0 {
            lemma_insert_index_bounds(s.queue, ev, 0);
            let idx = insert_index(s.queue, ev, 0);
            let q = insert_event(s.queue, ev);
            assert forall|i: int| 0 <= i < q.len() implies on_some_tent(pairs, (#[trigger] q[i]).value) by {
                if i < idx {
                    assert(q[i] == s.queue[i]);
                } else if i > idx {
                    assert(q[i] == s.queue[i - 1]);
                }
            }
        },
        None => {},
    }
}

proof fn lemma_event_on(s: SweepState, pairs: Seq<(i32, i32)>)
    requires
        s.queue.len() > 0,
        on_tents(s, pairs),
    ensures
        on_some_tent(pairs, s.queue.last().value),
{
    assert(on_some_tent(pairs, s.queue[s.queue.len() - 1].value));
}

proof fn lemma_step_on(s: SweepState, pairs: Seq<(i32, i32)>)
    requires
        s.queue.len() > 0,
        on_tents(s, pairs),
    ensures
        on_tents(sweep_step(s), pairs),
{
    let e = s.queue.last();
    let p = e.value;
    lemma_event_on(s, pairs);
    let s0 = SweepState { queue: s.queue.drop_last(), ..s };
    assert forall|i: int| 0 <= i < s0.queue.len() implies on_some_tent(pairs, (#[trigger] s0.queue[i]).value) by {
        assert(s0.queue[i] == s.queue[i]);
    }
    assert(on_tents(s0, pairs));
    let t = e.parent_mountain_id;
    match e.event_type {
        EventKind::Birth => {
            if t < s0.tents.len() && s0.tents[t as int].position is None {
                let pos = s0.status.len();
                lemma_record_on(s0.layers, pos as int, p, pairs);
                let s1 = born(s0, e);
                assert forall|u: int| 0 <= u < pairs.len() implies shaped(#[trigger] s1.tents[u], pairs[u].0, pairs[u].1) by {
                    assert(shaped(s0.tents[u], pairs[u].0, pairs[u].1));
                }
                lemma_probe_on(s1, pos as int, p, pairs);
                lemma_schedule_on(s1, probe(s1.tents, s1.status, pos as int, p), pairs);
            }
        },
        EventKind::Middle => {
            match rank_of(s0, t) {
                Some(j) => {
                    lemma_record_on(s0.layers, j, p, pairs);
                    let s1 = turned(s0, e, j);
                    assert forall|u: int| 0 <= u < pairs.len() implies shaped(#[trigger] s1.tents[u], pairs[u].0, pairs[u].1) by {
                        assert(shaped(s0.tents[u], pairs[u].0, pairs[u].1));
                    }
                    lemma_probe_on(s1, j + 1, p, pairs);
                    lemma_schedule_on(s1, probe(s1.tents, s1.status, j + 1, p), pairs);
                },
                None => {},
            }
        },
        EventKind::Death => {
            match rank_of(s0, t) {
                Some(j) => {
                    lemma_record_on(s0.layers, s0.status.len() - 1, p, pairs);
                    let ts = ranks_after_death(s0.tents, t, j as usize);
                    assert forall|u: int| 0 <= u < pairs.len() implies shaped(#[trigger] ts[u], pairs[u].0, pairs[u].1) by {
                        assert(shaped(s0.tents[u], pairs[u].0, pairs[u].1));
                    }
                },
                None => {},
            }
        },
        EventKind::Intersection => {
            let a = t;
            match (rank_of(s0, a), e.parent_mountain2_id) {
                (Some(j), Some(b)) => if j > 0 && s0.status[j - 1] == b && b < s0.tents.len()
                    && s0.tents[a as int].slope_rising && !s0.tents[b as int].slope_rising {
                    lemma_record_on(s0.layers, j, p, pairs);
                    lemma_record_on(record(s0.layers, j, p), j - 1, p, pairs);
                    let s1 = swapped(s0, e, j, b);
                    assert forall|u: int| 0 <= u < pairs.len() implies shaped(#[trigger] s1.tents[u], pairs[u].0, pairs[u].1) by {
                        assert(shaped(s0.tents[u], pairs[u].0, pairs[u].1));
                    }
                    let s2 = schedule(s1, probe(s1.tents, s1.status, j - 1, p));
                    lemma_probe_on(s1, j - 1, p, pairs);
                    lemma_schedule_on(s1, probe(s1.tents, s1.status, j - 1, p), pairs);
                    lemma_probe_on(s2, j + 1, p, pairs);
                    lemma_schedule_on(s2, probe(s2.tents, s2.status, j + 1, p), pairs);
                },
                _ => {},
            }
        },
    }
}

proof fn lemma_finish_on(s: SweepState, pairs: Seq<(i32, i32)>)
    requires
        on_tents(s, pairs),
    ensures
        on_tents(finish(s), pairs),
    decreases measure(s),
{
    if s.queue.len() > 0 {
        lemma_step_measure(s);
        lemma_step_on(s, pairs);
        lemma_finish_on(sweep_step(s), pairs);
    }
}

proof fn lemma_seeds_on(ts: Seq<Tent>, pairs: Seq<(i32, i32)>)
    requires
        ts.len() <= pairs.len(),
        births_before_deaths(pairs),
        forall|t: int| 0 <= t < ts.len() ==> shaped(#[trigger] ts[t], pairs[t].0, pairs[t].1),
    ensures
        forall|i: int| 0 <= i < seed_events(ts).len() ==> on_some_tent(pairs, (#[trigger] seed_events(ts)[i]).value),
    decreases ts.len(),
{
    if ts.len() > 0 {
        let init = ts.drop_last();
        assert forall|t: int| 0 <= t < init.len() implies shaped(#[trigger] init[t], pairs[t].0, pairs[t].1) by {
            assert(init[t] == ts[t]);
        }
        lemma_seeds_on(init, pairs);
        let n = ts.len() - 1;
        let m = ts[n];
        assert(shaped(m, pairs[n].0, pairs[n].1));
        assert(pairs[n].0 < pairs[n].1);
        let all = seed_events(ts);
        let before = seed_events(init);
        assert forall|i: int| 0 <= i < all.len() implies on_some_tent(pairs, (#[trigger] all[i]).value) by {
            if i < before.len() {
                assert(all[i] == before[i]);
            } else {
                let v = all[i].value;
                assert(v == m.birth || v == m.middle || v == m.death);
                assert(v.y == tent_value(pairs[n].0 as int, pairs[n].1 as int, v.x as int));
            }
        }
    }
}

proof fn lemma_queue_of_on(es: Seq<Event>, pairs: Seq<(i32, i32)>)
    requires
        forall|i: int| 0 <= i < es.len() ==> on_some_tent(pairs, (#[trigger] es[i]).value),
    ensures
        forall|i: int| 0 <= i < queue_of(es).len() ==> on_some_tent(pairs, (#[trigger] queue_of(es)[i]).value),
    decreases es.len(),
{
    if es.len() > 0 {
        let init = es.drop_last();
        assert forall|i: int| 0 <= i < init.len() implies on_some_tent(pairs, (#[trigger] init[i]).value) by {
            assert(init[i] == es[i]);
        }
        lemma_queue_of_on(init, pairs);
        let q0 = queue_of(init);
        let e = es.last();
        assert(on_some_tent(pairs, es[es.len() - 1].value));
        lemma_insert_index_bounds(q0, e, 0);
        let idx = insert_index(q0, e, 0);
        let q = insert_event(q0, e);
        assert forall|i: int| 0 <= i < q.len() implies on_some_tent(pairs, (#[trigger] q[i]).value) by {
            if i < idx {
                assert(q[i] == q0[i]);
            } else if i > idx {
                assert(q[i] == q0[i - 1]);
            }
        }
    }
}

/// Every critical point of every layer lies on the graph of the tent of one of
/// the finite pairs, where each finite pair is born before it dies.
pub proof fn lemma_points_on_tents(ps: Seq<BirthDeath>, k: nat)
    requires
        births_before_deaths(finite_pairs(ps)),
    ensures
        forall|i: int, a: int|
            0 <= i < landscape(ps, k).len() && 0 <= a < landscape(ps, k)[i].len() ==> on_some_tent(
                finite_pairs(ps),
                #[trigger] landscape(ps, k)[i][a],
            ),
{
    let pairs = finite_pairs(ps);
    let s = initial(ps, k);
    let ts = tents_of(ps);
    assert forall|t: int| 0 <= t < pairs.len() implies shaped(#[trigger] ts[t], pairs[t].0, pairs[t].1) by {}
    lemma_seeds_on(ts, pairs);
    lemma_queue_of_on(seed_events(ts), pairs);
    assert(on_tents(s, pairs));
    lemma_finish_on(s, pairs);
}

} // verus!
