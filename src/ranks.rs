use vstd::prelude::*;
use vstd::set_lib::{lemma_int_range, lemma_len_subset, set_int_range};
use crate::tent::{BirthDeath, finite_pairs};
use crate::event::{Event, EventKind};
use crate::sweep::{
    born, turned, swapped,
    SweepState, probe, schedule, rank_of, ranks_after_death, shifted, sweep_step, measure,
    finish, initial, landscape, lemma_step_measure, lemma_schedule_measure, quiet_above_peak,
    lemma_finish_quiet, lemma_finish_layers_len,
};

verus! {

/// The rank list and the tents agree: the tent at rank `j` holds rank `j`,
/// and a tent that holds a rank stands at it in the list.
pub open spec fn ranks_agree(s: SweepState) -> bool {
    &&& forall|j: int| 0 <= j < s.status.len() ==> (#[trigger] s.status[j]) < s.tents.len()
        && s.tents[s.status[j] as int].position == Some(j as usize)
    &&& forall|t: int| 0 <= t < s.tents.len() && (#[trigger] s.tents[t]).position is Some ==> {
        let j = s.tents[t].position->0 as int;
        j < s.status.len() && s.status[j] == t
    }
}

/// No more tents hold a rank, or have held ranks at once, than there are tents.
pub open spec fn ranks_bounded(s: SweepState) -> bool {
    &&& ranks_agree(s)
    &&& s.peak <= s.tents.len()
    &&& s.tents.len() <= usize::MAX
    &&& s.status.len() <= s.tents.len()
}

proof fn lemma_distinct_bounded(s: Seq<usize>, n: nat)
    requires
        forall|j: int| 0 <= j < s.len() ==> #[trigger] s[j] < n,
        forall|i: int, j: int| 0 <= i < j < s.len() ==> #[trigger] s[i] != #[trigger] s[j],
    ensures
        s.len() <= n,
{
    let m = s.map_values(|x: usize| x as int);
    assert(m.no_duplicates());
    m.unique_seq_to_set();
    lemma_int_range(0, n as int);
    assert(m.to_set().subset_of(set_int_range(0, n as int)));
    lemma_len_subset(m.to_set(), set_int_range(0, n as int));
}

proof fn lemma_agree_bounded(s: SweepState)
    requires
        ranks_agree(s),
        s.tents.len() <= usize::MAX,
        s.status.len() <= s.tents.len() + 1,
    ensures
        s.status.len() <= s.tents.len(),
{
    assert forall|i: int, j: int| 0 <= i < j < s.status.len() implies #[trigger] s.status[i] != #[trigger] s.status[j] by {
        assert(s.tents[s.status[i] as int].position == Some(i as usize));
        assert(s.tents[s.status[j] as int].position == Some(j as usize));
    }
    assert forall|j: int| 0 <= j < s.status.len() implies #[trigger] s.status[j] < s.tents.len() by {}
    lemma_distinct_bounded(s.status, s.tents.len());
}

proof fn lemma_schedule_bounded(s: SweepState, e: Option<Event>)
    requires
        ranks_bounded(s),
    ensures
        ranks_bounded(schedule(s, e)),
{
    lemma_schedule_measure(s, e);
}

pub proof fn lemma_step_bounded(s: SweepState)
    requires
        s.queue.len() > 0,
        ranks_bounded(s),
    ensures
        ranks_bounded(sweep_step(s)),
{
    let e = s.queue.last();
    let p = e.value;
    let s0 = SweepState { queue: s.queue.drop_last(), ..s };
    lemma_agree_bounded(s0);
    let t = e.parent_mountain_id;
    match e.event_type {
        EventKind::Birth => {
            if t < s0.tents.len() && s0.tents[t as int].position is None {
                let pos = s0.status.len();
                let s1 = born(s0, e);
                assert forall|q: int| 0 <= q < pos implies s0.status[q] != t by {
                    assert(s0.tents[s0.status[q] as int].position == Some(q as usize));
                }
                assert forall|j: int| 0 <= j < s1.status.len() implies (#[trigger] s1.status[j]) < s1.tents.len()
                    && s1.tents[s1.status[j] as int].position == Some(j as usize) by {
                    if j < pos {
                        assert(s0.tents[s0.status[j] as int].position == Some(j as usize));
                        assert(s0.status[j] != t);
                    }
                }
                assert forall|u: int| 0 <= u < s1.tents.len() && (#[trigger] s1.tents[u]).position is Some implies {
                    let j = s1.tents[u].position->0 as int;
                    j < s1.status.len() && s1.status[j] == u
                } by {
                    if u != t {
                        assert(s1.tents[u] == s0.tents[u]);
                        assert(s0.tents[u].position is Some);
                        let q0 = s0.tents[u].position->0 as int;
                        assert(s0.status[q0] == u);
                        assert(s1.status[q0] == u);
                    }
                }
                assert(ranks_agree(s1));
                lemma_agree_bounded(s1);
                lemma_schedule_bounded(s1, probe(s1.tents, s1.status, pos as int, p));
            }
        },
        EventKind::Middle => {
            match rank_of(s0, t) {
                Some(j) => {
                    let s1 = turned(s0, e, j);
                    assert forall|q: int| 0 <= q < s1.status.len() implies (#[trigger] s1.status[q]) < s1.tents.len()
                        && s1.tents[s1.status[q] as int].position == Some(q as usize) by {
                        assert(s0.tents[s0.status[q] as int].position == Some(q as usize));
                    }
                    assert forall|u: int| 0 <= u < s1.tents.len() && (#[trigger] s1.tents[u]).position is Some implies {
                        let q = s1.tents[u].position->0 as int;
                        q < s1.status.len() && s1.status[q] == u
                    } by {
                        assert(s1.tents[u].position == s0.tents[u].position);
                        assert(s0.tents[u].position is Some);
                    }
                    lemma_schedule_bounded(s1, probe(s1.tents, s1.status, j + 1, p));
                },
                None => {},
            }
        },
        EventKind::Death => {
            match rank_of(s0, t) {
                Some(j) => {
                    let r = sweep_step(s);
                    assert(r.status == s0.status.remove(j));
                    assert(r.tents == ranks_after_death(s0.tents, t, j as usize));
                    assert forall|q: int| 0 <= q < r.status.len() implies (#[trigger] r.status[q]) < r.tents.len()
                        && r.tents[r.status[q] as int].position == Some(q as usize) by {
                        if q < j {
                            assert(r.status[q] == s0.status[q]);
                            assert(s0.tents[s0.status[q] as int].position == Some(q as usize));
                        } else {
                            assert(r.status[q] == s0.status[q + 1]);
                            assert(s0.tents[s0.status[q + 1] as int].position == Some((q + 1) as usize));
                        }
                    }
                    assert forall|u: int| 0 <= u < r.tents.len() && (#[trigger] r.tents[u]).position is Some implies {
                        let q = r.tents[u].position->0 as int;
                        q < r.status.len() && r.status[q] == u
                    } by {
                        assert(u != t);
                        assert(r.tents[u] == shifted(s0.tents[u], j as usize));
                        assert(s0.tents[u].position is Some);
                        let q0 = s0.tents[u].position->0 as int;
                        assert(s0.status[q0] == u);
                        assert(q0 != j);
                    }
                },
                None => {},
            }
        },
        EventKind::Intersection => {
            let a = t;
            match (rank_of(s0, a), e.parent_mountain2_id) {
                (Some(j), Some(b)) => if j > 0 && s0.status[j - 1] == b && b < s0.tents.len()
                    && s0.tents[a as int].slope_rising && !s0.tents[b as int].slope_rising {
                    assert(s0.tents[b as int].position == Some((j - 1) as usize));
                    assert(a != b);
                    let s1 = swapped(s0, e, j, b);
                    assert forall|q: int| 0 <= q < s1.status.len() implies (#[trigger] s1.status[q]) < s1.tents.len()
                        && s1.tents[s1.status[q] as int].position == Some(q as usize) by {
                        if q != j && q != j - 1 {
                            assert(s0.tents[s0.status[q] as int].position == Some(q as usize));
                        }
                    }
                    assert forall|u: int| 0 <= u < s1.tents.len() && (#[trigger] s1.tents[u]).position is Some implies {
                        let q = s1.tents[u].position->0 as int;
                        q < s1.status.len() && s1.status[q] == u
                    } by {
                        if u != a && u != b {
                            assert(s1.tents[u] == s0.tents[u]);
                            assert(s0.tents[u].position is Some);
                        }
                    }
                    let s2 = schedule(s1, probe(s1.tents, s1.status, j - 1, p));
                    lemma_schedule_bounded(s1, probe(s1.tents, s1.status, j - 1, p));
                    lemma_schedule_bounded(s2, probe(s2.tents, s2.status, j + 1, p));
                },
                _ => {},
            }
        },
    }
}

proof fn lemma_finish_bounded(s: SweepState)
    requires
        ranks_bounded(s),
    ensures
        ranks_bounded(finish(s)),
    decreases measure(s),
{
    if s.queue.len() > 0 {
        lemma_step_measure(s);
        lemma_step_bounded(s);
        lemma_finish_bounded(sweep_step(s));
    }
}

/// The sweep never holds more tents at once than the diagram has finite
/// pairs, so the layers from that number on stay empty.
pub proof fn lemma_layers_past_pairs_empty(ps: Seq<BirthDeath>, k: nat, i: int)
    requires
        finite_pairs(ps).len() <= i < k,
        k <= usize::MAX,
    ensures
        finish(initial(ps, k)).peak <= finite_pairs(ps).len(),
        landscape(ps, k)[i].len() == 0,
{
    let s = initial(ps, k);
    assert(ranks_bounded(s));
    lemma_finish_bounded(s);
    assert(finish(s).tents.len() == s.tents.len()) by {
        lemma_finish_tents_len(s);
    }
    assert(quiet_above_peak(s));
    lemma_finish_quiet(s);
    lemma_finish_layers_len(s);
    assert(finish(s).layers[i].len() == 0);
}

proof fn lemma_finish_tents_len(s: SweepState)
    ensures
        finish(s).tents.len() == s.tents.len(),
    decreases measure(s),
{
    if s.queue.len() > 0 {
        lemma_step_measure(s);
        lemma_finish_tents_len(sweep_step(s));
    }
}

} // verus!
