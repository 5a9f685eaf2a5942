use vstd::prelude::*;
use crate::point::PointOrd;
use crate::tent::{BirthDeath, finite_pairs, is_finite_pair, tents_of};
use crate::sweep::{
    finish, initial, landscape, lemma_finish_layers_len, lemma_finish_quiet, quiet_above_peak,
    layers_in_order, in_sweep_order, lemma_finish_in_order,
};
use crate::event::{lemma_queue_of_sorted, seed_events};

verus! {

/// The landscape is a function of the diagram and the number of layers: two
/// runs on equal diagrams give equal layers.
pub proof fn lemma_runs_agree(
    p1: Seq<BirthDeath>,
    p2: Seq<BirthDeath>,
    k: nat,
    r1: Seq<Seq<PointOrd>>,
    r2: Seq<Seq<PointOrd>>,
)
    requires
        p1 == p2,
        r1 == landscape(p1, k),
        r2 == landscape(p2, k),
    ensures
        r1 == r2,
{
}

proof fn lemma_finite_pairs_skip(ps: Seq<BirthDeath>, i: int)
    requires
        0 <= i < ps.len(),
        !is_finite_pair(ps[i]),
    ensures
        finite_pairs(ps.remove(i)) == finite_pairs(ps),
    decreases ps.len(),
{
    if i == ps.len() - 1 {
        assert(ps.remove(i) =~= ps.drop_last());
    } else {
        let r = ps.remove(i);
        assert(r.drop_last() =~= ps.drop_last().remove(i));
        assert(r.last() == ps.last());
        lemma_finite_pairs_skip(ps.drop_last(), i);
    }
}

/// A pair with an end that is not finite contributes nothing: taking it out
/// of the diagram leaves every layer as it was.
pub proof fn lemma_non_finite_pair_ignored(ps: Seq<BirthDeath>, i: int, k: nat)
    requires
        0 <= i < ps.len(),
        !is_finite_pair(ps[i]),
    ensures
        landscape(ps.remove(i), k) == landscape(ps, k),
{
    lemma_finite_pairs_skip(ps, i);
    assert(tents_of(ps.remove(i)) == tents_of(ps));
    assert(initial(ps.remove(i), k) == initial(ps, k));
}

/// Asked for no layer, the landscape has none; asked for `k`, it has `k`.
pub proof fn lemma_layer_count(ps: Seq<BirthDeath>, k: nat)
    ensures
        landscape(ps, k).len() == k,
        k == 0 ==> landscape(ps, k) == Seq::<Seq<PointOrd>>::empty(),
{
    lemma_finish_layers_len(initial(ps, k));
    if k == 0 {
        assert(landscape(ps, k) =~= Seq::<Seq<PointOrd>>::empty());
    }
}

/// Layers past the largest number of tents ranked at once stay empty.
pub proof fn lemma_layers_past_peak_empty(ps: Seq<BirthDeath>, k: nat, i: int)
    requires
        finish(initial(ps, k)).peak <= i < k,
    ensures
        landscape(ps, k)[i].len() == 0,
{
    let s = initial(ps, k);
    assert(quiet_above_peak(s));
    lemma_finish_quiet(s);
    lemma_finish_layers_len(s);
    assert(finish(s).layers[i].len() == 0);
}

/// Each layer lists its critical points in the order of the sweep: by
/// increasing `x`, and by increasing `y` at one `x`.
pub proof fn lemma_layers_in_order(ps: Seq<BirthDeath>, k: nat)
    ensures
        layers_in_order(landscape(ps, k)),
{
    let s = initial(ps, k);
    let floor = PointOrd { x: i64::MIN, y: i64::MIN };
    lemma_queue_of_sorted(seed_events(tents_of(ps)), floor);
    assert(in_sweep_order(s));
    lemma_finish_in_order(s);
}

} // verus!
