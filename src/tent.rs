use vstd::prelude::*;
use crate::point::PointOrd;

verus! {

/// A filtration value of a persistence diagram: an integer, or a value that is
/// not finite (infinite or undefined).
#[derive(Debug, Clone, Copy, PartialEq, Eq, Structural)]
pub enum Extended {
    Finite(i32),
    NonFinite,
}

/// One pair of a persistence diagram.
#[derive(Debug, Clone, Copy, PartialEq, Eq, Structural)]
pub struct BirthDeath {
    pub birth: Extended,
    pub death: Extended,
}

/// The tent function of one finite pair, with its sweep state: whether it is
/// still on its rising side and its current rank, if it is alive.
#[derive(Debug, Clone, Copy)]
pub struct Tent {
    pub position: Option<usize>,
    pub slope_rising: bool,
    pub low: i32,
    pub high: i32,
    pub birth: PointOrd,
    pub middle: PointOrd,
    pub death: PointOrd,
    pub id: usize,
}

/// A tent whose three points are those of its pair `(low, high)`.
pub open spec fn wf_tent(m: Tent) -> bool {
    &&& m.birth == PointOrd { x: (2 * m.low) as i64, y: 0 }
    &&& m.middle == PointOrd { x: (m.low + m.high) as i64, y: (m.high - m.low) as i64 }
    &&& m.death == PointOrd { x: (2 * m.high) as i64, y: 0 }
}

/// Every tent of a list is well formed.
pub open spec fn tents_wf(ts: Seq<Tent>) -> bool {
    forall|u: int| 0 <= u < ts.len() ==> #[trigger] wf_tent(ts[u])
}

/// Whether `p` lies on a piece of slope 1 (`rising`) or -1 that starts at
/// `seg.start`, strictly between its two ends.
pub open spec fn strictly_inside(seg: Segment, rising: bool, p: PointOrd) -> bool {
    &&& seg.start.x < p.x < seg.end.x
    &&& if rising {
        p.y - seg.start.y == p.x - seg.start.x
    } else {
        p.y - seg.start.y == seg.start.x - p.x
    }
}

/// The end points of one straight piece of a tent.
#[derive(Debug, Clone, Copy)]
pub struct Segment {
    pub start: PointOrd,
    pub end: PointOrd,
}

/// The tent of the pair `(b, d)` with identity `id`: it rises from `(b, 0)` to
/// its apex `((b + d) / 2, (d - b) / 2)` and falls to `(d, 0)`.
pub open spec fn spec_tent(b: i32, d: i32, id: usize) -> Tent {
    Tent {
        position: None,
        slope_rising: true,
        low: b,
        high: d,
        birth: PointOrd { x: (2 * b) as i64, y: 0 },
        middle: PointOrd { x: (b + d) as i64, y: (d - b) as i64 },
        death: PointOrd { x: (2 * d) as i64, y: 0 },
        id,
    }
}

/// Whether both ends of a pair are finite.
pub open spec fn is_finite_pair(p: BirthDeath) -> bool {
    p.birth is Finite && p.death is Finite
}

/// The finite pairs of a diagram, in their order.
pub open spec fn finite_pairs(ps: Seq<BirthDeath>) -> Seq<(i32, i32)>
    decreases ps.len(),
{
    if ps.len() == 0 {
        Seq::empty()
    } else {
        let rest = finite_pairs(ps.drop_last());
        match (ps.last().birth, ps.last().death) {
            (Extended::Finite(b), Extended::Finite(d)) => rest.push((b, d)),
            _ => rest,
        }
    }
}

/// The tents of a diagram: one per finite pair, numbered densely.
pub open spec fn tents_of(ps: Seq<BirthDeath>) -> Seq<Tent> {
    finite_pairs(ps).map(|i: int, p: (i32, i32)| spec_tent(p.0, p.1, i as usize))
}

/// The doubled value of a tent at the doubled abscissa `x`.
pub open spec fn tent_value(b: int, d: int, x: int) -> int {
    if x <= 2 * b || x >= 2 * d {
        0
    } else if x <= b + d {
        x - 2 * b
    } else {
        2 * d - x
    }
}

/// The piece of a tent that the sweep is on: birth to apex while rising, apex
/// to death after.
pub open spec fn spec_segment(t: Tent) -> Segment {
    if t.slope_rising {
        Segment { start: t.birth, end: t.middle }
    } else {
        Segment { start: t.middle, end: t.death }
    }
}

/// Where the rising piece of `r` and the falling piece of `f` cross, if they
/// cross at a point that is an end of neither.
pub open spec fn spec_proper_crossing(r: Tent, f: Tent) -> Option<PointOrd> {
    let p = PointOrd { x: (r.low + f.high) as i64, y: (f.high - r.low) as i64 };
    if r.birth.x < p.x && p.x < r.middle.x && f.middle.x < p.x && p.x < f.death.x {
        Some(p)
    } else {
        None
    }
}

/// Where the rising tent `lo`, ranked just below the falling tent `up`, comes
/// to lie above it: at a proper crossing of their pieces, or at the apex of
/// `up` where both rose from one birth point and `lo` still rises.
pub open spec fn spec_overtake(lo: Tent, up: Tent) -> Option<PointOrd> {
    match spec_crossing(lo, up) {
        Some(p) => Some(p),
        None => if lo.slope_rising && !up.slope_rising && lo.birth == up.birth && lo.birth.x
            < up.middle.x && up.middle.x < lo.middle.x {
            Some(up.middle)
        } else {
            None
        },
    }
}

/// The crossing of the current pieces of two tents: none where both rise or
/// both fall, else the proper crossing of the rising one with the falling one.
pub open spec fn spec_crossing(m1: Tent, m2: Tent) -> Option<PointOrd> {
    if m1.slope_rising == m2.slope_rising {
        None
    } else if m1.slope_rising {
        spec_proper_crossing(m1, m2)
    } else {
        spec_proper_crossing(m2, m1)
    }
}

/// Builds the tent of the pair `(birth, death)`.
pub fn create_mountain(birth: i32, death: i32, index: usize) -> (t: Tent)
    ensures
        t == spec_tent(birth, death, index),
{
    let b = birth as i64;
    let d = death as i64;
    Tent {
        position: None,
        slope_rising: true,
        low: birth,
        high: death,
        birth: PointOrd { x: 2 * b, y: 0 },
        middle: PointOrd { x: b + d, y: d - b },
        death: PointOrd { x: 2 * d, y: 0 },
        id: index,
    }
}

/// Builds one tent for each finite pair, dropping the pairs with an endpoint
/// that is not finite.
pub fn generate_mountains(bd_pairs: &Vec<BirthDeath>) -> (r: Vec<Tent>)
    ensures
        r@ == tents_of(bd_pairs@),
{
    let mut r: Vec<Tent> = Vec::new();
    let mut i: usize = 0;
    while i < bd_pairs.len()
        invariant
            i <= bd_pairs.len(),
            r@ == tents_of(bd_pairs@.take(i as int)),
        decreases bd_pairs.len() - i,
    {
        let ghost before = bd_pairs@.take(i as int);
        let ghost after = bd_pairs@.take(i as int + 1);
        assert(after.drop_last() == before);
        assert(after.last() == bd_pairs@[i as int]);
        let pair = bd_pairs[i];
        match (pair.birth, pair.death) {
            (Extended::Finite(b), Extended::Finite(d)) => {
                let t = create_mountain(b, d, r.len());
                r.push(t);
                assert(r@ =~= tents_of(after));
            },
            _ => {
                assert(r@ =~= tents_of(after));
            },
        }
        i += 1;
    }
    assert(bd_pairs@.take(i as int) == bd_pairs@);
    r
}

/// The start of the piece of a tent that the sweep is on.
pub fn current_segment_start(mountain: &Tent) -> (r: PointOrd)
    ensures
        r == spec_segment(*mountain).start,
{
    if mountain.slope_rising {
        mountain.birth
    } else {
        mountain.middle
    }
}

/// The end of the piece of a tent that the sweep is on.
pub fn current_segment_end(mountain: &Tent) -> (r: PointOrd)
    ensures
        r == spec_segment(*mountain).end,
{
    if mountain.slope_rising {
        mountain.middle
    } else {
        mountain.death
    }
}

/// The piece of a tent that the sweep is on.
pub fn create_line_segment(mountain: &Tent) -> (r: Segment)
    ensures
        r == spec_segment(*mountain),
{
    Segment { start: current_segment_start(mountain), end: current_segment_end(mountain) }
}

fn proper_crossing(r: &Tent, f: &Tent) -> (p: Option<PointOrd>)
    requires
        wf_tent(*r),
        wf_tent(*f),
        r.slope_rising,
        !f.slope_rising,
    ensures
        p == spec_proper_crossing(*r, *f),
{
    let rise = create_line_segment(r);
    let fall = create_line_segment(f);
    let p = PointOrd { x: r.low as i64 + f.high as i64, y: f.high as i64 - r.low as i64 };
    if rise.start.x < p.x && p.x < rise.end.x && fall.start.x < p.x && p.x < fall.end.x {
        Some(p)
    } else {
        None
    }
}

/// Where the current pieces of two tents cross, at a point that is an end of
/// neither; none where both tents rise or both fall.
pub fn intersects_with_neighbor(m1: &Tent, m2: &Tent) -> (r: Option<PointOrd>)
    requires
        wf_tent(*m1),
        wf_tent(*m2),
    ensures
        r == spec_crossing(*m1, *m2),
        m1.slope_rising == m2.slope_rising ==> r is None,
        m1.slope_rising != m2.slope_rising ==> forall|p: PointOrd|
            (strictly_inside(spec_segment(*m1), m1.slope_rising, p) && strictly_inside(
                spec_segment(*m2),
                m2.slope_rising,
                p,
            )) <==> r == Some(p),
{
    if m1.slope_rising == m2.slope_rising {
        None
    } else if m1.slope_rising {
        proper_crossing(m1, m2)
    } else {
        proper_crossing(m2, m1)
    }
}

/// Where the rising tent `lo`, just below the falling tent `up`, overtakes it.
pub fn overtake_point(lo: &Tent, up: &Tent) -> (r: Option<PointOrd>)
    requires
        wf_tent(*lo),
        wf_tent(*up),
    ensures
        r == spec_overtake(*lo, *up),
{
    match intersects_with_neighbor(lo, up) {
        Some(p) => Some(p),
        None => if lo.slope_rising && !up.slope_rising && lo.birth == up.birth && lo.birth.x
            < up.middle.x && up.middle.x < lo.middle.x {
            Some(up.middle)
        } else {
            None
        },
    }
}

} // verus!
