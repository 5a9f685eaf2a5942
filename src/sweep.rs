use vstd::prelude::*;
use crate::point::{PointOrd, point_lt};
use crate::laws::lemma_layers_in_order;
use crate::tent::{
    BirthDeath, Tent, spec_overtake, tents_of, generate_mountains, overtake_point, wf_tent,
    tents_wf,
};
use crate::event::{
    Event, EventKind, insert_event, queue_of, seed_events, push_event, generate_initial_events,
    event_queue, lemma_insert_index_bounds, event_lt, queue_sorted, queue_from, lemma_insert_sorted,
};

verus! {

/// The state of the sweep: the tents with their ranks and slopes, the tents
/// alive in rank order, the events still to come (the next one last), the
/// layers recorded so far, how many crossings may still be scheduled, and the
/// largest number of tents that have held a rank at once.
pub struct SweepState {
    pub tents: Seq<Tent>,
    pub status: Seq<usize>,
    pub queue: Seq<Event>,
    pub layers: Seq<Seq<PointOrd>>,
    pub budget: nat,
    pub peak: nat,
}

/// The layers of a list of vectors, as sequences.
pub open spec fn layers_view(v: Seq<Vec<PointOrd>>) -> Seq<Seq<PointOrd>> {
    v.map_values(|l: Vec<PointOrd>| l@)
}

/// Appends `p` to layer `rank`, where that layer is asked for.
pub open spec fn record(layers: Seq<Seq<PointOrd>>, rank: int, p: PointOrd) -> Seq<Seq<PointOrd>> {
    if 0 <= rank < layers.len() {
        layers.update(rank, layers[rank].push(p))
    } else {
        layers
    }
}

/// The crossing event of the tents at ranks `lower - 1` and `lower`, if the
/// lower one rises, the upper one falls, and the lower one overtakes the upper
/// one at a point not before `now`.
pub open spec fn probe(tents: Seq<Tent>, status: Seq<usize>, lower: int, now: PointOrd) -> Option<
    Event,
> {
    if 0 < lower < status.len() && status[lower] < tents.len() && status[lower - 1]
        < tents.len() {
        let lo = tents[status[lower] as int];
        let up = tents[status[lower - 1] as int];
        if lo.slope_rising && !up.slope_rising {
            match spec_overtake(lo, up) {
                Some(p) => if !point_lt(p, now) {
                    Some(
                        Event {
                            value: p,
                            event_type: EventKind::Intersection,
                            parent_mountain_id: status[lower],
                            parent_mountain2_id: Some(status[lower - 1]),
                        },
                    )
                } else {
                    None
                },
                None => None,
            }
        } else {
            None
        }
    } else {
        None
    }
}

/// Puts a found crossing into the queue, while the budget of crossings lasts.
pub open spec fn schedule(s: SweepState, e: Option<Event>) -> SweepState {
    match e {
        Some(ev) => if s.budget > 0 {
            SweepState { queue: insert_event(s.queue, ev), budget: (s.budget - 1) as nat, ..s }
        } else {
            s
        },
        None => s,
    }
}

/// The rank of tent `t`, where it is alive and the rank list agrees.
pub open spec fn rank_of(s: SweepState, t: usize) -> Option<int> {
    if t < s.tents.len() {
        match s.tents[t as int].position {
            Some(j) => if j < s.status.len() && s.status[j as int] == t {
                Some(j as int)
            } else {
                None
            },
            None => None,
        }
    } else {
        None
    }
}

/// A tent whose rank moves up by one when the tent at rank `j` leaves.
pub open spec fn shifted(m: Tent, j: usize) -> Tent {
    match m.position {
        Some(q) => if q > j {
            Tent { position: Some((q - 1) as usize), ..m }
        } else {
            m
        },
        None => m,
    }
}

/// The tents after tent `t`, at rank `j`, has died.
pub open spec fn ranks_after_death(ts: Seq<Tent>, t: usize, j: usize) -> Seq<Tent> {
    ts.map(|i: int, m: Tent| if i == t { Tent { position: None, ..m } } else { shifted(m, j) })
}

/// A birth before any crossing is probed: tent `t` takes the last rank and
/// records its first point there.
pub open spec fn born(s: SweepState, e: Event) -> SweepState {
    let t = e.parent_mountain_id;
    let pos = s.status.len();
    SweepState {
        tents: s.tents.update(t as int, Tent { position: Some(pos as usize), ..s.tents[t as int] }),
        status: s.status.push(t),
        layers: record(s.layers, pos as int, e.value),
        peak: if s.peak > pos { s.peak } else { pos + 1 },
        ..s
    }
}

/// An apex before any crossing is probed: the tent at rank `j` starts to fall
/// and records its apex.
pub open spec fn turned(s: SweepState, e: Event, j: int) -> SweepState {
    let t = e.parent_mountain_id;
    SweepState {
        tents: s.tents.update(t as int, Tent { slope_rising: false, ..s.tents[t as int] }),
        layers: record(s.layers, j, e.value),
        ..s
    }
}

/// A crossing before any crossing is probed: both tents record the point, and
/// the rising tent at rank `j` trades ranks with the falling tent `b` above it.
pub open spec fn swapped(s: SweepState, e: Event, j: int, b: usize) -> SweepState {
    let a = e.parent_mountain_id;
    SweepState {
        tents: s.tents.update(a as int, Tent { position: Some((j - 1) as usize), ..s.tents[a as int] }).update(
            b as int,
            Tent { position: Some(j as usize), ..s.tents[b as int] },
        ),
        status: s.status.update(j - 1, a).update(j, b),
        layers: record(record(s.layers, j, e.value), j - 1, e.value),
        ..s
    }
}

/// A birth: the tent, unless it holds a rank already, joins at the last rank,
/// with the value 0, and may cross the tent just above it.
pub open spec fn on_birth(s: SweepState, e: Event) -> SweepState {
    let t = e.parent_mountain_id;
    if t < s.tents.len() && s.tents[t as int].position is None {
        let s1 = born(s, e);
        schedule(s1, probe(s1.tents, s1.status, s.status.len() as int, e.value))
    } else {
        s
    }
}

/// An apex: the tent starts to fall and may cross the tent just below it.
pub open spec fn on_middle(s: SweepState, e: Event) -> SweepState {
    let t = e.parent_mountain_id;
    match rank_of(s, t) {
        Some(j) => {
            let s1 = turned(s, e, j);
            schedule(s1, probe(s1.tents, s1.status, j + 1, e.value))
        },
        None => s,
    }
}

/// A death: the tent leaves the ranks, and its last point closes the lowest
/// layer held. Every tent ranked below it has the value 0 here too, and so
/// dies at this point as well: each of these deaths closes one of their layers.
pub open spec fn on_death(s: SweepState, e: Event) -> SweepState {
    let t = e.parent_mountain_id;
    match rank_of(s, t) {
        Some(j) => SweepState {
            tents: ranks_after_death(s.tents, t, j as usize),
            status: s.status.remove(j),
            layers: record(s.layers, s.status.len() - 1, e.value),
            ..s
        },
        None => s,
    }
}

/// A crossing: where the rising tent is still just below the falling one, the
/// point goes to both their layers, they swap ranks, and each is probed
/// against its new neighbour.
pub open spec fn on_intersection(s: SweepState, e: Event) -> SweepState {
    let a = e.parent_mountain_id;
    match (rank_of(s, a), e.parent_mountain2_id) {
        (Some(j), Some(b)) => if j > 0 && s.status[j - 1] == b && b < s.tents.len()
            && s.tents[a as int].slope_rising && !s.tents[b as int].slope_rising {
            let s1 = swapped(s, e, j, b);
            let s2 = schedule(s1, probe(s1.tents, s1.status, j - 1, e.value));
            schedule(s2, probe(s2.tents, s2.status, j + 1, e.value))
        } else {
            s
        },
        _ => s,
    }
}

/// One step of the sweep: the next event leaves the queue and is handled.
pub open spec fn sweep_step(s: SweepState) -> SweepState {
    if s.queue.len() == 0 {
        s
    } else {
        let e = s.queue.last();
        let s0 = SweepState { queue: s.queue.drop_last(), ..s };
        match e.event_type {
            EventKind::Birth => on_birth(s0, e),
            EventKind::Middle => on_middle(s0, e),
            EventKind::Death => on_death(s0, e),
            EventKind::Intersection => on_intersection(s0, e),
        }
    }
}

/// What bounds the rest of the sweep: the events in the queue and the
/// crossings that may still be scheduled.
pub open spec fn measure(s: SweepState) -> nat {
    s.queue.len() + s.budget
}

/// The sweep run from `s` until its queue is empty.
pub open spec fn finish(s: SweepState) -> SweepState
    decreases measure(s),
{
    if s.queue.len() == 0 {
        s
    } else {
        let t = sweep_step(s);
        if measure(t) < measure(s) {
            finish(t)
        } else {
            s
        }
    }
}

/// The number of crossings that a sweep over `n` tents may schedule: one at
/// each birth and apex, and two at each of the at most `n * (n - 1) / 2`
/// crossings of two tents.
pub open spec fn crossing_budget(n: nat) -> nat {
    n * n + n
}

/// The state before the sweep: every tent unborn, its three events queued, and
/// `k` empty layers.
pub open spec fn initial(pairs: Seq<BirthDeath>, k: nat) -> SweepState {
    let tents = tents_of(pairs);
    SweepState {
        tents,
        status: Seq::empty(),
        queue: queue_of(seed_events(tents)),
        layers: Seq::new(k, |i: int| Seq::<PointOrd>::empty()),
        budget: crossing_budget(tents.len()),
        peak: 0,
    }
}

/// The first `k` landscape layers of a persistence diagram.
pub open spec fn landscape(pairs: Seq<BirthDeath>, k: nat) -> Seq<Seq<PointOrd>> {
    finish(initial(pairs, k)).layers
}

/// Scheduling trades one unit of budget for one queued event, and touches
/// nothing else.
pub proof fn lemma_schedule_measure(s: SweepState, e: Option<Event>)
    ensures
        measure(schedule(s, e)) == measure(s),
        schedule(s, e).layers == s.layers,
        schedule(s, e).tents == s.tents,
        schedule(s, e).status == s.status,
{
    match e {
        Some(ev) => if s.budget > 0 {
            lemma_insert_index_bounds(s.queue, ev, 0);
            assert(insert_event(s.queue, ev).len() == s.queue.len() + 1);
        },
        None => {},
    }
}

/// Each step of the sweep takes it closer to its end, and keeps the number of
/// layers.
pub proof fn lemma_step_measure(s: SweepState)
    requires
        s.queue.len() > 0,
    ensures
        measure(sweep_step(s)) < measure(s),
        sweep_step(s).layers.len() == s.layers.len(),
        sweep_step(s).tents.len() == s.tents.len(),
{
    let e = s.queue.last();
    let s0 = SweepState { queue: s.queue.drop_last(), ..s };
    let t = e.parent_mountain_id;
    match e.event_type {
        EventKind::Birth => {
            if t < s0.tents.len() && s0.tents[t as int].position is None {
                let pos = s0.status.len();
                let s1 = born(s0, e);
                lemma_schedule_measure(s1, probe(s1.tents, s1.status, pos as int, e.value));
            }
        },
        EventKind::Middle => {
            match rank_of(s0, t) {
                Some(j) => {
                    let s1 = turned(s0, e, j);
                    lemma_schedule_measure(s1, probe(s1.tents, s1.status, j + 1, e.value));
                },
                None => {},
            }
        },
        EventKind::Death => {},
        EventKind::Intersection => {
            let a = t;
            match (rank_of(s0, a), e.parent_mountain2_id) {
                (Some(j), Some(b)) => if j > 0 && s0.status[j - 1] == b && b < s0.tents.len()
                    && s0.tents[a as int].slope_rising && !s0.tents[b as int].slope_rising {
                    let s1 = swapped(s0, e, j, b);
                    let s2 = schedule(s1, probe(s1.tents, s1.status, j - 1, e.value));
                    lemma_schedule_measure(s1, probe(s1.tents, s1.status, j - 1, e.value));
                    lemma_schedule_measure(s2, probe(s2.tents, s2.status, j + 1, e.value));
                },
                _ => {},
            }
        },
    }
}

/// The layers from the peak on are empty, and the ranks held do not exceed
/// the peak.
pub open spec fn quiet_above_peak(s: SweepState) -> bool {
    &&& s.status.len() <= s.peak
    &&& forall|i: int| s.peak <= i < s.layers.len() ==> #[trigger] s.layers[i].len() == 0
}

proof fn lemma_record_below_peak(layers: Seq<Seq<PointOrd>>, r: int, p: PointOrd, peak: nat)
    requires
        r < peak,
        forall|i: int| peak <= i < layers.len() ==> #[trigger] layers[i].len() == 0,
    ensures
        forall|i: int| peak <= i < record(layers, r, p).len() ==> #[trigger] record(layers, r, p)[i].len() == 0,
        record(layers, r, p).len() == layers.len(),
{
}

proof fn lemma_step_quiet(s: SweepState)
    requires
        s.queue.len() > 0,
        quiet_above_peak(s),
    ensures
        quiet_above_peak(sweep_step(s)),
{
    let e = s.queue.last();
    let s0 = SweepState { queue: s.queue.drop_last(), ..s };
    let t = e.parent_mountain_id;
    match e.event_type {
        EventKind::Birth => {
            if t < s0.tents.len() && s0.tents[t as int].position is None {
                let pos = s0.status.len();
                let peak: nat = if s0.peak > pos { s0.peak } else { pos + 1 };
                lemma_record_below_peak(s0.layers, pos as int, e.value, peak);
                let s1 = born(s0, e);
                lemma_schedule_measure(s1, probe(s1.tents, s1.status, pos as int, e.value));
            }
        },
        EventKind::Middle => {
            match rank_of(s0, t) {
                Some(j) => {
                    lemma_record_below_peak(s0.layers, j, e.value, s0.peak);
                    let s1 = turned(s0, e, j);
                    lemma_schedule_measure(s1, probe(s1.tents, s1.status, j + 1, e.value));
                },
                None => {},
            }
        },
        EventKind::Death => {
            match rank_of(s0, t) {
                Some(j) => {
                    lemma_record_below_peak(s0.layers, s0.status.len() - 1, e.value, s0.peak);
                },
                None => {},
            }
        },
        EventKind::Intersection => {
            let a = t;
            match (rank_of(s0, a), e.parent_mountain2_id) {
                (Some(j), Some(b)) => if j > 0 && s0.status[j - 1] == b && b < s0.tents.len()
                    && s0.tents[a as int].slope_rising && !s0.tents[b as int].slope_rising {
                    lemma_record_below_peak(s0.layers, j, e.value, s0.peak);
                    lemma_record_below_peak(record(s0.layers, j, e.value), j - 1, e.value, s0.peak);
                    let s1 = swapped(s0, e, j, b);
                    let s2 = schedule(s1, probe(s1.tents, s1.status, j - 1, e.value));
                    lemma_schedule_measure(s1, probe(s1.tents, s1.status, j - 1, e.value));
                    lemma_schedule_measure(s2, probe(s2.tents, s2.status, j + 1, e.value));
                },
                _ => {},
            }
        },
    }
}

/// Running the sweep to its end keeps the layers from the peak on empty.
pub proof fn lemma_finish_quiet(s: SweepState)
    requires
        quiet_above_peak(s),
    ensures
        quiet_above_peak(finish(s)),
    decreases measure(s),
{
    if s.queue.len() > 0 {
        lemma_step_measure(s);
        lemma_step_quiet(s);
        lemma_finish_quiet(sweep_step(s));
    }
}

/// Every layer holds its points in the order of the sweep.
pub open spec fn layers_in_order(layers: Seq<Seq<PointOrd>>) -> bool {
    forall|i: int, a: int, b: int|
        0 <= i < layers.len() && 0 <= a < b < layers[i].len() ==> !point_lt(
            #[trigger] layers[i][b],
            #[trigger] layers[i][a],
        )
}

/// No point of a layer lies after `p`.
pub open spec fn layers_upto(layers: Seq<Seq<PointOrd>>, p: PointOrd) -> bool {
    forall|i: int, a: int| 0 <= i < layers.len() && 0 <= a < layers[i].len() ==> !point_lt(p, #[trigger] layers[i][a])
}

/// The sweep has recorded nothing after `p` and has nothing queued before it.
pub open spec fn settled(s: SweepState, p: PointOrd) -> bool {
    &&& queue_sorted(s.queue)
    &&& queue_from(s.queue, p)
    &&& layers_in_order(s.layers)
    &&& layers_upto(s.layers, p)
}

/// The queue is in order and no recorded point lies after the next event.
pub open spec fn in_sweep_order(s: SweepState) -> bool {
    &&& queue_sorted(s.queue)
    &&& layers_in_order(s.layers)
    &&& s.queue.len() > 0 ==> layers_upto(s.layers, s.queue.last().value)
}

proof fn lemma_record_settled(layers: Seq<Seq<PointOrd>>, r: int, p: PointOrd)
    requires
        layers_in_order(layers),
        layers_upto(layers, p),
    ensures
        layers_in_order(record(layers, r, p)),
        layers_upto(record(layers, r, p), p),
{
    let n = record(layers, r, p);
    assert forall|i: int, a: int, b: int|
        0 <= i < n.len() && 0 <= a < b < n[i].len() implies !point_lt(#[trigger] n[i][b], #[trigger] n[i][a]) by {
        if i == r && 0 <= r < layers.len() {
            if b == layers[i].len() {
                assert(n[i][b] == p);
                assert(n[i][a] == layers[i][a]);
            } else {
                assert(n[i][b] == layers[i][b]);
                assert(n[i][a] == layers[i][a]);
            }
        }
    }
    assert forall|i: int, a: int| 0 <= i < n.len() && 0 <= a < n[i].len() implies !point_lt(p, #[trigger] n[i][a]) by {
        if i == r && 0 <= r < layers.len() && a < layers[i].len() {
            assert(n[i][a] == layers[i][a]);
        }
    }
}

proof fn lemma_schedule_settled(s: SweepState, e: Option<Event>, p: PointOrd)
    requires
        settled(s, p),
        e matches Some(ev) ==> !point_lt(ev.value, p),
    ensures
        settled(schedule(s, e), p),
{
    match e {
        Some(ev) => if s.budget > 0 {
            lemma_insert_sorted(s.queue, ev, p);
        },
        None => {},
    }
}

pub proof fn lemma_step_in_order(s: SweepState)
    requires
        s.queue.len() > 0,
        in_sweep_order(s),
    ensures
        in_sweep_order(sweep_step(s)),
{
    let e = s.queue.last();
    let p = e.value;
    let s0 = SweepState { queue: s.queue.drop_last(), ..s };
    assert forall|i: int| 0 <= i < s0.queue.len() implies !point_lt(#[trigger] s0.queue[i].value, p) by {
        assert(s0.queue[i] == s.queue[i]);
        assert(!event_lt(s.queue[i], s.queue[s.queue.len() - 1]));
    }
    assert(settled(s0, p));
    let t = e.parent_mountain_id;
    match e.event_type {
        EventKind::Birth => {
            if t < s0.tents.len() && s0.tents[t as int].position is None {
                let pos = s0.status.len();
                lemma_record_settled(s0.layers, pos as int, p);
                let s1 = born(s0, e);
                lemma_schedule_settled(s1, probe(s1.tents, s1.status, pos as int, p), p);
            }
        },
        EventKind::Middle => {
            match rank_of(s0, t) {
                Some(j) => {
                    lemma_record_settled(s0.layers, j, p);
                    let s1 = turned(s0, e, j);
                    lemma_schedule_settled(s1, probe(s1.tents, s1.status, j + 1, p), p);
                },
                None => {},
            }
        },
        EventKind::Death => {
            match rank_of(s0, t) {
                Some(j) => {
                    lemma_record_settled(s0.layers, s0.status.len() - 1, p);
                },
                None => {},
            }
        },
        EventKind::Intersection => {
            let a = t;
            match (rank_of(s0, a), e.parent_mountain2_id) {
                (Some(j), Some(b)) => if j > 0 && s0.status[j - 1] == b && b < s0.tents.len()
                    && s0.tents[a as int].slope_rising && !s0.tents[b as int].slope_rising {
                    lemma_record_settled(s0.layers, j, p);
                    lemma_record_settled(record(s0.layers, j, p), j - 1, p);
                    let s1 = swapped(s0, e, j, b);
                    let s2 = schedule(s1, probe(s1.tents, s1.status, j - 1, p));
                    lemma_schedule_settled(s1, probe(s1.tents, s1.status, j - 1, p), p);
                    lemma_schedule_settled(s2, probe(s2.tents, s2.status, j + 1, p), p);
                },
                _ => {},
            }
        },
    }
    let r = sweep_step(s);
    assert(settled(r, p));
    if r.queue.len() > 0 {
        let last = r.queue.last();
        assert(!point_lt(r.queue[r.queue.len() - 1].value, p));
        assert forall|i: int, a: int| 0 <= i < r.layers.len() && 0 <= a < r.layers[i].len() implies !point_lt(last.value, #[trigger] r.layers[i][a]) by {
            assert(!point_lt(p, r.layers[i][a]));
        }
    }
}

/// Running the sweep to its end keeps every layer in the order of the sweep.
pub proof fn lemma_finish_in_order(s: SweepState)
    requires
        in_sweep_order(s),
    ensures
        in_sweep_order(finish(s)),
    decreases measure(s),
{
    if s.queue.len() > 0 {
        lemma_step_measure(s);
        lemma_step_in_order(s);
        lemma_finish_in_order(sweep_step(s));
    }
}

/// Running the sweep to its end keeps the number of layers.
pub proof fn lemma_finish_layers_len(s: SweepState)
    ensures
        finish(s).layers.len() == s.layers.len(),
    decreases measure(s),
{
    if s.queue.len() > 0 {
        lemma_step_measure(s);
        lemma_finish_layers_len(sweep_step(s));
    }
}

/// Appends `point` to layer `position`, where that layer is asked for.
pub fn log_to_landscape(landscapes: &mut Vec<Vec<PointOrd>>, position: usize, point: PointOrd)
    ensures
        layers_view(final(landscapes)@) == record(layers_view(old(landscapes)@), position as int, point),
{
    if position < landscapes.len() {
        landscapes[position].push(point);
        assert(layers_view(landscapes@) =~= record(layers_view(old(landscapes)@), position as int, point));
    } else {
        assert(layers_view(landscapes@) =~= record(layers_view(old(landscapes)@), position as int, point));
    }
}

/// The crossing event of the tents at ranks `lower - 1` and `lower`, where the
/// lower one rises past the falling upper one at a point not before `now`.
pub fn handle_intersection(status: &Vec<usize>, mountains: &Vec<Tent>, lower: usize, now: PointOrd) -> (r:
    Option<Event>)
    requires
        tents_wf(mountains@),
    ensures
        r == probe(mountains@, status@, lower as int, now),
{
    if lower == 0 || lower >= status.len() {
        return None;
    }
    let lo_id = status[lower];
    let up_id = status[lower - 1];
    if lo_id >= mountains.len() || up_id >= mountains.len() {
        return None;
    }
    let lo = &mountains[lo_id];
    let up = &mountains[up_id];
    if !lo.slope_rising || up.slope_rising {
        return None;
    }
    match overtake_point(lo, up) {
        Some(p) => if !p.less_than(&now) {
            Some(
                Event {
                    value: p,
                    event_type: EventKind::Intersection,
                    parent_mountain_id: lo_id,
                    parent_mountain2_id: Some(up_id),
                },
            )
        } else {
            None
        },
        None => None,
    }
}

fn clear_rank(tents: &mut Vec<Tent>, t: usize, j: usize)
    ensures
        final(tents)@ == ranks_after_death(old(tents)@, t, j),
        tents_wf(old(tents)@) ==> tents_wf(final(tents)@),
{
    let mut i: usize = 0;
    while i < tents.len()
        invariant
            i <= tents.len(),
            tents@.len() == old(tents)@.len(),
            forall|q: int| 0 <= q < i ==> tents@[q] == ranks_after_death(old(tents)@, t, j)[q],
            forall|q: int| i <= q < tents@.len() ==> tents@[q] == old(tents)@[q],
        decreases tents.len() - i,
    {
        let mut m = tents[i];
        if i == t {
            m.position = None;
        } else {
            match m.position {
                Some(q) => if q > j {
                    m.position = Some(q - 1);
                },
                None => {},
            }
        }
        tents.set(i, m);
        i += 1;
    }
    assert(tents@ =~= ranks_after_death(old(tents)@, t, j));
    assert(tents_wf(old(tents)@) ==> tents_wf(tents@)) by {
        if tents_wf(old(tents)@) {
            assert forall|u: int| 0 <= u < tents@.len() implies #[trigger] wf_tent(tents@[u]) by {
                assert(wf_tent(old(tents)@[u]));
            }
        }
    }
}

fn set_tent(tents: &mut Vec<Tent>, i: usize, m: Tent)
    requires
        i < old(tents)@.len(),
        wf_tent(m),
    ensures
        final(tents)@ == old(tents)@.update(i as int, m),
        tents_wf(old(tents)@) ==> tents_wf(final(tents)@),
{
    tents.set(i, m);
    assert(tents_wf(old(tents)@) ==> tents_wf(tents@)) by {
        if tents_wf(old(tents)@) {
            assert forall|u: int| 0 <= u < tents@.len() implies #[trigger] wf_tent(tents@[u]) by {
                if u != i {
                    assert(wf_tent(old(tents)@[u]));
                }
            }
        }
    }
}

struct Sweep {
    mountains: Vec<Tent>,
    status: Vec<usize>,
    events: Vec<Event>,
    landscapes: Vec<Vec<PointOrd>>,
    budget: u128,
    peak: usize,
}

impl View for Sweep {
    type V = SweepState;

    closed spec fn view(&self) -> SweepState {
        SweepState {
            tents: self.mountains@,
            status: self.status@,
            queue: self.events@,
            layers: layers_view(self.landscapes@),
            budget: self.budget as nat,
            peak: self.peak as nat,
        }
    }
}

impl Sweep {
    fn schedule(&mut self, e: Option<Event>)
        ensures
            final(self)@ == schedule(old(self)@, e),
            final(self)@.tents == old(self)@.tents,
    {
        match e {
            Some(ev) => if self.budget > 0 {
                push_event(&mut self.events, ev);
                self.budget = self.budget - 1;
            },
            None => {},
        }
    }

    fn rank_of(&self, t: usize) -> (r: Option<usize>)
        ensures
            r matches Some(j) ==> rank_of(self@, t) == Some(j as int),
            r is None ==> rank_of(self@, t) is None,
    {
        if t >= self.mountains.len() {
            return None;
        }
        match self.mountains[t].position {
            Some(j) => if j < self.status.len() && self.status[j] == t {
                Some(j)
            } else {
                None
            },
            None => None,
        }
    }

    fn on_birth(&mut self, e: Event)
        requires
            tents_wf(old(self)@.tents),
        ensures
            final(self)@ == on_birth(old(self)@, e),
            tents_wf(final(self)@.tents),
    {
        let t = e.parent_mountain_id;
        if t < self.mountains.len() && self.mountains[t].position.is_none() {
            let pos = self.status.len();
            assert(wf_tent(self.mountains@[t as int]));
            let mut m = self.mountains[t];
            m.position = Some(pos);
            set_tent(&mut self.mountains, t, m);
            self.status.push(t);
            let len = self.status.len();
            if self.peak < len {
                self.peak = len;
            }
            log_to_landscape(&mut self.landscapes, pos, e.value);
            let found = handle_intersection(&self.status, &self.mountains, pos, e.value);
            self.schedule(found);
        }
    }

    fn on_middle(&mut self, e: Event)
        requires
            tents_wf(old(self)@.tents),
        ensures
            final(self)@ == on_middle(old(self)@, e),
            tents_wf(final(self)@.tents),
    {
        let t = e.parent_mountain_id;
        match self.rank_of(t) {
            Some(j) => {
                assert(wf_tent(self.mountains@[t as int]));
            let mut m = self.mountains[t];
                m.slope_rising = false;
                set_tent(&mut self.mountains, t, m);
                log_to_landscape(&mut self.landscapes, j, e.value);
                let len = self.status.len();
                assert(j < len);
                let found = handle_intersection(&self.status, &self.mountains, j + 1, e.value);
                self.schedule(found);
            },
            None => {},
        }
    }

    fn on_death(&mut self, e: Event)
        requires
            tents_wf(old(self)@.tents),
        ensures
            final(self)@ == on_death(old(self)@, e),
            tents_wf(final(self)@.tents),
    {
        let t = e.parent_mountain_id;
        match self.rank_of(t) {
            Some(j) => {
                let last = self.status.len() - 1;
                log_to_landscape(&mut self.landscapes, last, e.value);
                self.status.remove(j);
                clear_rank(&mut self.mountains, t, j);
            },
            None => {},
        }
    }

    fn on_intersection(&mut self, e: Event)
        requires
            tents_wf(old(self)@.tents),
        ensures
            final(self)@ == on_intersection(old(self)@, e),
            tents_wf(final(self)@.tents),
    {
        let a = e.parent_mountain_id;
        match (self.rank_of(a), e.parent_mountain2_id) {
            (Some(j), Some(b)) => {
                if j > 0 && self.status[j - 1] == b && b < self.mountains.len()
                    && self.mountains[a].slope_rising && !self.mountains[b].slope_rising {
                    log_to_landscape(&mut self.landscapes, j, e.value);
                    log_to_landscape(&mut self.landscapes, j - 1, e.value);
                    assert(wf_tent(self.mountains@[a as int]));
            let mut ma = self.mountains[a];
                    ma.position = Some(j - 1);
                    set_tent(&mut self.mountains, a, ma);
                    assert(wf_tent(self.mountains@[b as int]));
            let mut mb = self.mountains[b];
                    mb.position = Some(j);
                    set_tent(&mut self.mountains, b, mb);
                    self.status.set(j - 1, a);
                    self.status.set(j, b);
                    let above = handle_intersection(&self.status, &self.mountains, j - 1, e.value);
                    self.schedule(above);
                    let len = self.status.len();
                    assert(j < len);
                    let below = handle_intersection(&self.status, &self.mountains, j + 1, e.value);
                    self.schedule(below);
                }
            },
            _ => {},
        }
    }

    fn step(&mut self)
        requires
            old(self).events.len() > 0,
            tents_wf(old(self)@.tents),
        ensures
            final(self)@ == sweep_step(old(self)@),
            tents_wf(final(self)@.tents),
    {
        let ghost s = self@;
        match self.events.pop() {
            Some(e) => {
                assert(self@ == SweepState { queue: s.queue.drop_last(), ..s });
                match e.event_type {
                    EventKind::Birth => self.on_birth(e),
                    EventKind::Middle => self.on_middle(e),
                    EventKind::Death => self.on_death(e),
                    EventKind::Intersection => self.on_intersection(e),
                }
            },
            None => {},
        }
    }
}

/// The first `k` layers of the persistence landscape of a diagram: pairs with
/// an endpoint that is not finite are left out, the rest are swept as tents,
/// and layer `i` receives the critical points of the tents while they hold
/// rank `i`.
pub fn generate(bd_pairs: Vec<BirthDeath>, k: usize) -> (r: Vec<Vec<PointOrd>>)
    ensures
        layers_view(r@) == landscape(bd_pairs@, k as nat),
        r@.len() == k,
        layers_in_order(layers_view(r@)),
{
    let mountains = generate_mountains(&bd_pairs);
    let seeds = generate_initial_events(&mountains);
    let events = event_queue(&seeds);
    let n = mountains.len() as u128;
    assert(n * n + n <= u128::MAX) by (nonlinear_arith)
        requires
            n <= 0xffff_ffff_ffff_ffffu128,
    ;
    let budget = n * n + n;
    let mut landscapes: Vec<Vec<PointOrd>> = Vec::new();
    let mut i: usize = 0;
    while i < k
        invariant
            i <= k,
            landscapes@.len() == i,
            forall|q: int| 0 <= q < i ==> landscapes@[q]@ == Seq::<PointOrd>::empty(),
        decreases k - i,
    {
        let layer: Vec<PointOrd> = Vec::new();
        landscapes.push(layer);
        i += 1;
    }
    assert(layers_view(landscapes@) =~= Seq::new(k as nat, |q: int| Seq::<PointOrd>::empty()));
    let mut sweep = Sweep { mountains, status: Vec::new(), events, landscapes, budget, peak: 0 };
    let ghost start = initial(bd_pairs@, k as nat);
    assert(sweep@.layers =~= start.layers);
    assert(sweep@ == start);
    while sweep.events.len() > 0
        invariant
            finish(sweep@) == finish(start),
            sweep@.layers.len() == k,
            tents_wf(sweep@.tents),
        decreases measure(sweep@),
    {
        proof {
            lemma_step_measure(sweep@);
        }
        sweep.step();
    }
    proof {
        lemma_finish_layers_len(start);
        lemma_layers_in_order(bd_pairs@, k as nat);
    }
    sweep.landscapes
}

} // verus!
