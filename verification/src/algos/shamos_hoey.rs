//! Shamos–Hoey segment-intersection detection: an event-driven sweep over
//! segment start and end events, with the currently active segments kept in an
//! ordered structure keyed by their y-coordinate at the sweep position.
//!
//! Segments are compared at the rightmost of their two start x-coordinates;
//! the y value there is a rational number, compared exactly by
//! cross-multiplication, so no rounding ever reorders the active set.

use crate::algos::Algo;
use crate::common::Point;
use crate::common::PointOrd;
use crate::common::clone_vec_copy;
use crate::common::lemma_abs_mul_le;
use crate::common::lemma_sort_spec_valid;
use crate::common::rotation;
use crate::common::rotation_spec;
use crate::common::sort_points;
use crate::common::sort_spec;
use crate::common::valid_point;
use crate::common::MAX_COORD;
use crate::common::MAX_POINTS;
use vstd::prelude::*;

verus! {

/// An input line segment, canonicalized so the first point has the smaller x.
#[derive(Copy, Clone, Debug, PartialEq, Eq, Structural)]
pub struct Segment {
    pub a: Point,
    pub b: Point,
}

pub open spec fn seg_new_spec(a: Point, b: Point) -> Segment {
    if a.x > b.x {
        Segment { a: b, b: a }
    } else {
        Segment { a, b }
    }
}

pub open spec fn valid_seg(s: Segment) -> bool {
    &&& valid_point(s.a)
    &&& valid_point(s.b)
    &&& s.a.x <= s.b.x
}

impl Segment {
    /// Builds a canonicalized segment from its two endpoints.
    pub fn new(a: Point, b: Point) -> (r: Segment)
        ensures
            r == seg_new_spec(a, b),
    {
        if a.x > b.x {
            Segment { a: b, b: a }
        } else {
            Segment { a, b }
        }
    }
}

/// Numerator of the y-coordinate of the segment at `x`, over the denominator
/// `seg_den`; a vertical segment degenerates to the constant y of its first
/// endpoint.
pub open spec fn seg_num(s: Segment, x: int) -> int {
    if s.a.x == s.b.x {
        s.a.y as int
    } else {
        s.a.y * (s.b.x - s.a.x) + (s.b.y - s.a.y) * (x - s.a.x)
    }
}

pub open spec fn seg_den(s: Segment) -> int {
    if s.a.x == s.b.x {
        1
    } else {
        s.b.x - s.a.x
    }
}

/// Total comparison of two active segments: by y at the rightmost of their
/// start x-coordinates (compared exactly as rationals), then by their four
/// coordinates for stability.
pub open spec fn seg_cmp(s: Segment, t: Segment) -> core::cmp::Ordering {
    let x = if s.a.x >= t.a.x {
        s.a.x as int
    } else {
        t.a.x as int
    };
    let lhs = seg_num(s, x) * seg_den(t);
    let rhs = seg_num(t, x) * seg_den(s);
    if lhs < rhs {
        core::cmp::Ordering::Less
    } else if lhs > rhs {
        core::cmp::Ordering::Greater
    } else if s.a.x != t.a.x {
        if s.a.x < t.a.x {
            core::cmp::Ordering::Less
        } else {
            core::cmp::Ordering::Greater
        }
    } else if s.a.y != t.a.y {
        if s.a.y < t.a.y {
            core::cmp::Ordering::Less
        } else {
            core::cmp::Ordering::Greater
        }
    } else if s.b.x != t.b.x {
        if s.b.x < t.b.x {
            core::cmp::Ordering::Less
        } else {
            core::cmp::Ordering::Greater
        }
    } else if s.b.y != t.b.y {
        if s.b.y < t.b.y {
            core::cmp::Ordering::Less
        } else {
            core::cmp::Ordering::Greater
        }
    } else {
        core::cmp::Ordering::Equal
    }
}

/// Two segments that compare equal are the same segment.
pub proof fn lemma_seg_cmp_eq(s: Segment, t: Segment)
    requires
        seg_cmp(s, t) == core::cmp::Ordering::Equal,
    ensures
        s == t,
{
}

fn seg_num_den_exec(s: &Segment, x: i64) -> (r: (i128, i128))
    requires
        valid_seg(*s),
        -MAX_COORD <= x <= MAX_COORD,
    ensures
        r.0 == seg_num(*s, x as int),
        r.1 == seg_den(*s),
{
    if s.a.x == s.b.x {
        (s.a.y as i128, 1)
    } else {
        let dx = s.b.x as i128 - s.a.x as i128;
        let dy = s.b.y as i128 - s.a.y as i128;
        proof {
            lemma_abs_mul_le(s.a.y as int, dx as int, MAX_COORD as int, 2 * MAX_COORD);
            lemma_abs_mul_le(dy as int, x - s.a.x, 2 * MAX_COORD, 2 * MAX_COORD);
        }
        ((s.a.y as i128) * dx + dy * (x as i128 - s.a.x as i128), dx)
    }
}

/// Decides `seg_cmp` exactly.
pub fn seg_cmp_exec(s: &Segment, t: &Segment) -> (r: core::cmp::Ordering)
    requires
        valid_seg(*s),
        valid_seg(*t),
    ensures
        r == seg_cmp(*s, *t),
{
    let x = if s.a.x >= t.a.x {
        s.a.x
    } else {
        t.a.x
    };
    let sn = seg_num_den_exec(s, x);
    let tn = seg_num_den_exec(t, x);
    proof {
        let bound_num: int = MAX_COORD * (2 * MAX_COORD) + (2 * MAX_COORD) * (2 * MAX_COORD);
        lemma_abs_mul_le(s.a.y as int, seg_den(*s), MAX_COORD as int, 2 * MAX_COORD);
        lemma_abs_mul_le((s.b.y - s.a.y) as int, x - s.a.x, 2 * MAX_COORD, 2 * MAX_COORD);
        lemma_abs_mul_le(t.a.y as int, seg_den(*t), MAX_COORD as int, 2 * MAX_COORD);
        lemma_abs_mul_le((t.b.y - t.a.y) as int, x - t.a.x, 2 * MAX_COORD, 2 * MAX_COORD);
        lemma_abs_mul_le(sn.0 as int, tn.1 as int, bound_num, 2 * MAX_COORD);
        lemma_abs_mul_le(tn.0 as int, sn.1 as int, bound_num, 2 * MAX_COORD);
    }
    let lhs = sn.0 * tn.1;
    let rhs = tn.0 * sn.1;
    if lhs < rhs {
        core::cmp::Ordering::Less
    } else if lhs > rhs {
        core::cmp::Ordering::Greater
    } else if s.a.x != t.a.x {
        if s.a.x < t.a.x {
            core::cmp::Ordering::Less
        } else {
            core::cmp::Ordering::Greater
        }
    } else if s.a.y != t.a.y {
        if s.a.y < t.a.y {
            core::cmp::Ordering::Less
        } else {
            core::cmp::Ordering::Greater
        }
    } else if s.b.x != t.b.x {
        if s.b.x < t.b.x {
            core::cmp::Ordering::Less
        } else {
            core::cmp::Ordering::Greater
        }
    } else if s.b.y != t.b.y {
        if s.b.y < t.b.y {
            core::cmp::Ordering::Less
        } else {
            core::cmp::Ordering::Greater
        }
    } else {
        core::cmp::Ordering::Equal
    }
}

/// The two closed 1-D intervals overlap.
pub open spec fn intersect_1d_spec(a1: int, a2: int, b1: int, b2: int) -> bool {
    let al = if a1 > a2 {
        a2
    } else {
        a1
    };
    let ah = if a1 > a2 {
        a1
    } else {
        a2
    };
    let bl = if b1 > b2 {
        b2
    } else {
        b1
    };
    let bh = if b1 > b2 {
        b1
    } else {
        b2
    };
    let lo = if al > bl {
        al
    } else {
        bl
    };
    let hi = if ah < bh {
        ah
    } else {
        bh
    };
    lo <= hi
}

/// Decides the 1-D interval-overlap test exactly.
pub fn intersect_1d(a1: i64, a2: i64, b1: i64, b2: i64) -> (r: bool)
    ensures
        r == intersect_1d_spec(a1 as int, a2 as int, b1 as int, b2 as int),
{
    let mut a1 = a1;
    let mut a2 = a2;
    let mut b1 = b1;
    let mut b2 = b2;
    if a1 > a2 {
        let t = a1;
        a1 = a2;
        a2 = t;
    }
    if b1 > b2 {
        let t = b1;
        b1 = b2;
        b2 = t;
    }
    let lo = if a1 > b1 {
        a1
    } else {
        b1
    };
    let hi = if a2 < b2 {
        a2
    } else {
        b2
    };
    lo <= hi
}

/// Two segments intersect: their bounding boxes overlap in both axes, and the
/// endpoints of each straddle or touch the other's line. Both conditions are
/// necessary; neither alone is sufficient.
pub open spec fn intersect_seg_spec(f: Segment, s: Segment) -> bool {
    &&& intersect_1d_spec(f.a.x as int, f.b.x as int, s.a.x as int, s.b.x as int)
    &&& intersect_1d_spec(f.a.y as int, f.b.y as int, s.a.y as int, s.b.y as int)
    &&& rotation_spec(f.a, f.b, s.a) * rotation_spec(f.a, f.b, s.b) <= 0
    &&& rotation_spec(s.a, s.b, f.a) * rotation_spec(s.a, s.b, f.b) <= 0
}

/// Decides segment intersection exactly.
pub fn intersect_seg(first: &Segment, second: &Segment) -> (r: bool)
    requires
        valid_seg(*first),
        valid_seg(*second),
    ensures
        r == intersect_seg_spec(*first, *second),
{
    if !intersect_1d(first.a.x, first.b.x, second.a.x, second.b.x) {
        return false;
    }
    if !intersect_1d(first.a.y, first.b.y, second.a.y, second.b.y) {
        return false;
    }
    let r1 = rotation(&first.a, &first.b, &second.a);
    let r2 = rotation(&first.a, &first.b, &second.b);
    let r3 = rotation(&second.a, &second.b, &first.a);
    let r4 = rotation(&second.a, &second.b, &first.b);
    proof {
        let rb: int = 6 * MAX_COORD * MAX_COORD;
        lemma_rotation_bound(first.a, first.b, second.a);
        lemma_rotation_bound(first.a, first.b, second.b);
        lemma_rotation_bound(second.a, second.b, first.a);
        lemma_rotation_bound(second.a, second.b, first.b);
        lemma_abs_mul_le(r1 as int, r2 as int, rb, rb);
        lemma_abs_mul_le(r3 as int, r4 as int, rb, rb);
        assert(rb == 0x6000_0000_0000_0000);
        assert(rb * rb < 0x8000_0000_0000_0000_0000_0000_0000_0000) by (nonlinear_arith)
            requires
                0 <= rb <= 0x6000_0000_0000_0000,
        ;
    }
    r1 * r2 <= 0 && r3 * r4 <= 0
}

/// A segment-start or segment-end event at sweep position `x`.
#[derive(Copy, Clone, Debug, PartialEq, Eq, Structural)]
pub struct Event {
    pub x: i64,
    pub id: usize,
    pub is_start: bool,
}

/// `e1` is stored before `e2` in the event vector, which is consumed from the
/// back: events are processed in ascending x, starts before ends at equal x,
/// and by ascending segment index among equals.
pub open spec fn ev_before(e1: Event, e2: Event) -> bool {
    ||| e1.x > e2.x
    ||| (e1.x == e2.x && !e1.is_start && e2.is_start)
    ||| (e1.x == e2.x && e1.is_start == e2.is_start && e1.id > e2.id)
}

/// Position at which an event is stored: after every event that precedes it.
pub open spec fn ev_lb(s: Seq<Event>, v: Event) -> int
    decreases s.len(),
{
    if s.len() == 0 {
        0
    } else if ev_before(s[0], v) {
        1 + ev_lb(s.drop_first(), v)
    } else {
        0
    }
}

pub open spec fn ev_insert(s: Seq<Event>, v: Event) -> Seq<Event> {
    s.insert(ev_lb(s, v), v)
}

proof fn lemma_ev_lb_range(s: Seq<Event>, v: Event)
    ensures
        0 <= ev_lb(s, v) <= s.len(),
    decreases s.len(),
{
    if s.len() > 0 && ev_before(s[0], v) {
        lemma_ev_lb_range(s.drop_first(), v);
    }
}

proof fn lemma_ev_lb_at(s: Seq<Event>, v: Event, i: int)
    requires
        0 <= i <= s.len(),
        forall|k: int| 0 <= k < i ==> ev_before(#[trigger] s[k], v),
        i == s.len() || !ev_before(s[i], v),
    ensures
        ev_lb(s, v) == i,
    decreases i,
{
    if i == 0 {
    } else {
        let rest = s.drop_first();
        assert(forall|k: int| 0 <= k < i - 1 ==> ev_before(#[trigger] rest[k], v));
        lemma_ev_lb_at(rest, v, i - 1);
    }
}

/// The position of the first stored segment that does not precede `v`.
pub open spec fn seg_lb(s: Seq<Segment>, v: Segment) -> int
    decreases s.len(),
{
    if s.len() == 0 {
        0
    } else if seg_cmp(s[0], v) == core::cmp::Ordering::Less {
        1 + seg_lb(s.drop_first(), v)
    } else {
        0
    }
}

/// The position of the first stored segment that follows `v`.
pub open spec fn seg_ub(s: Seq<Segment>, v: Segment) -> int
    decreases s.len(),
{
    if s.len() == 0 {
        0
    } else if seg_cmp(s[0], v) == core::cmp::Ordering::Greater {
        0
    } else {
        1 + seg_ub(s.drop_first(), v)
    }
}

/// Ordered-set insertion into the active set: at the sorted position, or
/// nowhere if an equal segment is already stored.
pub open spec fn seg_insert(s: Seq<Segment>, v: Segment) -> Seq<Segment> {
    let i = seg_lb(s, v);
    if i < s.len() && seg_cmp(s[i], v) == core::cmp::Ordering::Equal {
        s
    } else {
        s.insert(i, v)
    }
}

/// Ordered-set removal from the active set: takes out the stored segment equal
/// to `v`, if any.
pub open spec fn seg_remove(s: Seq<Segment>, v: Segment) -> Seq<Segment> {
    let i = seg_lb(s, v);
    if i < s.len() && seg_cmp(s[i], v) == core::cmp::Ordering::Equal {
        s.remove(i)
    } else {
        s
    }
}

proof fn lemma_seg_lb_range(s: Seq<Segment>, v: Segment)
    ensures
        0 <= seg_lb(s, v) <= s.len(),
    decreases s.len(),
{
    if s.len() > 0 && seg_cmp(s[0], v) == core::cmp::Ordering::Less {
        lemma_seg_lb_range(s.drop_first(), v);
    }
}

proof fn lemma_seg_ub_range(s: Seq<Segment>, v: Segment)
    ensures
        0 <= seg_ub(s, v) <= s.len(),
    decreases s.len(),
{
    if s.len() > 0 && seg_cmp(s[0], v) != core::cmp::Ordering::Greater {
        lemma_seg_ub_range(s.drop_first(), v);
    }
}

proof fn lemma_seg_lb_at(s: Seq<Segment>, v: Segment, i: int)
    requires
        0 <= i <= s.len(),
        forall|k: int| 0 <= k < i ==> seg_cmp(#[trigger] s[k], v) == core::cmp::Ordering::Less,
        i == s.len() || seg_cmp(s[i], v) != core::cmp::Ordering::Less,
    ensures
        seg_lb(s, v) == i,
    decreases i,
{
    if i == 0 {
    } else {
        let rest = s.drop_first();
        assert(forall|k: int|
            0 <= k < i - 1 ==> seg_cmp(#[trigger] rest[k], v) == core::cmp::Ordering::Less);
        lemma_seg_lb_at(rest, v, i - 1);
    }
}

proof fn lemma_seg_ub_at(s: Seq<Segment>, v: Segment, i: int)
    requires
        0 <= i <= s.len(),
        forall|k: int| 0 <= k < i ==> seg_cmp(#[trigger] s[k], v) != core::cmp::Ordering::Greater,
        i == s.len() || seg_cmp(s[i], v) == core::cmp::Ordering::Greater,
    ensures
        seg_ub(s, v) == i,
    decreases i,
{
    if i == 0 {
    } else {
        let rest = s.drop_first();
        assert(forall|k: int|
            0 <= k < i - 1 ==> seg_cmp(#[trigger] rest[k], v) != core::cmp::Ordering::Greater);
        lemma_seg_ub_at(rest, v, i - 1);
    }
}

/// Finds the lower bound of `v` in the active set.
fn seg_lower_bound(set: &Vec<Segment>, v: &Segment) -> (r: usize)
    requires
        valid_seg(*v),
        forall|k: int| 0 <= k < set@.len() ==> valid_seg(#[trigger] set@[k]),
    ensures
        r as int == seg_lb(set@, *v),
        r <= set@.len(),
{
    let mut idx: usize = 0;
    while idx < set.len() && matches!(seg_cmp_exec(&set[idx], v), core::cmp::Ordering::Less)
        invariant
            0 <= idx <= set@.len(),
            valid_seg(*v),
            forall|k: int| 0 <= k < set@.len() ==> valid_seg(#[trigger] set@[k]),
            forall|k: int|
                0 <= k < idx ==> seg_cmp(#[trigger] set@[k], *v) == core::cmp::Ordering::Less,
        decreases set@.len() - idx,
    {
        idx = idx + 1;
    }
    proof {
        lemma_seg_lb_at(set@, *v, idx as int);
    }
    idx
}

/// Finds the upper bound of `v` in the active set.
fn seg_upper_bound(set: &Vec<Segment>, v: &Segment) -> (r: usize)
    requires
        valid_seg(*v),
        forall|k: int| 0 <= k < set@.len() ==> valid_seg(#[trigger] set@[k]),
    ensures
        r as int == seg_ub(set@, *v),
        r <= set@.len(),
{
    let mut idx: usize = 0;
    while idx < set.len() && !matches!(seg_cmp_exec(&set[idx], v), core::cmp::Ordering::Greater)
        invariant
            0 <= idx <= set@.len(),
            valid_seg(*v),
            forall|k: int| 0 <= k < set@.len() ==> valid_seg(#[trigger] set@[k]),
            forall|k: int|
                0 <= k < idx ==> seg_cmp(#[trigger] set@[k], *v) != core::cmp::Ordering::Greater,
        decreases set@.len() - idx,
    {
        idx = idx + 1;
    }
    proof {
        lemma_seg_ub_at(set@, *v, idx as int);
    }
    idx
}

/// Inserts into the active set, mirroring ordered-set insertion.
fn insert_active(set: &mut Vec<Segment>, v: &Segment)
    requires
        valid_seg(*v),
        forall|k: int| 0 <= k < old(set)@.len() ==> valid_seg(#[trigger] old(set)@[k]),
        old(set)@.len() < usize::MAX,
    ensures
        final(set)@ == seg_insert(old(set)@, *v),
{
    let idx = seg_lower_bound(set, v);
    if idx < set.len() {
        if matches!(seg_cmp_exec(&set[idx], v), core::cmp::Ordering::Equal) {
            return ;
        }
    }
    set.insert(idx, *v);
}

/// Removes from the active set, mirroring ordered-set removal.
fn remove_active(set: &mut Vec<Segment>, v: &Segment)
    requires
        valid_seg(*v),
        forall|k: int| 0 <= k < old(set)@.len() ==> valid_seg(#[trigger] old(set)@[k]),
    ensures
        final(set)@ == seg_remove(old(set)@, *v),
{
    let idx = seg_lower_bound(set, v);
    if idx < set.len() {
        if matches!(seg_cmp_exec(&set[idx], v), core::cmp::Ordering::Equal) {
            set.remove(idx);
        }
    }
}

proof fn lemma_rotation_bound(a: Point, b: Point, c: Point)
    requires
        valid_point(a),
        valid_point(b),
        valid_point(c),
    ensures
        -(6 * MAX_COORD * MAX_COORD) <= rotation_spec(a, b, c) <= 6 * MAX_COORD * MAX_COORD,
{
    lemma_abs_mul_le(a.x as int, b.y - c.y, MAX_COORD as int, 2 * MAX_COORD);
    lemma_abs_mul_le(b.x as int, c.y - a.y, MAX_COORD as int, 2 * MAX_COORD);
    lemma_abs_mul_le(c.x as int, a.y - b.y, MAX_COORD as int, 2 * MAX_COORD);
}

/// The sweep state: the input segments, the active set ordered by y at the
/// sweep position, the pending events (consumed from the back), and the
/// intersecting pair once one is found.
#[derive(Clone, Debug)]
pub struct State {
    pub segments: Vec<Segment>,
    pub cur_segments: Vec<Segment>,
    pub events: Vec<Event>,
    pub result: Option<(Segment, Segment)>,
}

/// What the most recent step accomplished: the segment whose event was
/// scanned, the intersecting pair if this event revealed one, and the sweep
/// position.
#[derive(Copy, Clone, Debug, PartialEq, Eq)]
pub enum Action {
    NoAction,
    Scan((Segment, Option<(Segment, Segment)>, i64)),
}

/// Mathematical model of a sweep state.
pub struct ShModel {
    pub segments: Seq<Segment>,
    pub cur_segments: Seq<Segment>,
    pub events: Seq<Event>,
    pub result: Option<(Segment, Segment)>,
}

/// The events of segments `i` and above, inserted into `acc` at their sorted
/// positions; `start` selects start or end events.
pub open spec fn add_events(segs: Seq<Segment>, i: int, start: bool, acc: Seq<Event>) -> Seq<Event>
    decreases segs.len() - i,
{
    if i < 0 || i >= segs.len() {
        acc
    } else {
        add_events(
            segs,
            i + 1,
            start,
            ev_insert(
                acc,
                Event {
                    x: if start {
                        segs[i].a.x
                    } else {
                        segs[i].b.x
                    },
                    id: i as usize,
                    is_start: start,
                },
            ),
        )
    }
}

/// The sorted event list of a segment set: one start and one end event per
/// segment.
pub open spec fn build_events(segs: Seq<Segment>) -> Seq<Event> {
    add_events(segs, 0, false, add_events(segs, 0, true, Seq::empty()))
}

/// Consecutive points of the x-sorted input paired into segments; an odd last
/// point is left unpaired.
pub open spec fn build_segments(sorted: Seq<Point>) -> Seq<Segment> {
    Seq::new((sorted.len() / 2) as nat, |k: int| seg_new_spec(sorted[2 * k], sorted[2 * k + 1]))
}

/// The initial model over a given segment list.
pub open spec fn sh_first_segments(segs: Seq<Segment>) -> ShModel {
    ShModel {
        segments: segs,
        cur_segments: Seq::empty(),
        events: build_events(segs),
        result: None,
    }
}

/// The initial model over raw points: sorted by x, then paired up.
pub open spec fn sh_first(points: Seq<Point>) -> ShModel {
    sh_first_segments(build_segments(sort_spec(PointOrd::XY, points)))
}

/// The predecessor and successor of `seg` in the active set.
pub open spec fn sh_neighbors(cs: Seq<Segment>, seg: Segment) -> (
    Option<Segment>,
    Option<Segment>,
) {
    let lb = seg_lb(cs, seg);
    let ub = seg_ub(cs, seg);
    (
        if lb > 0 {
            Some(cs[lb - 1])
        } else {
            None
        },
        if ub < cs.len() {
            Some(cs[ub])
        } else {
            None
        },
    )
}

/// The pair this event reveals, if any: a start event tests the new segment
/// against each of its two neighbors; an end event tests the two newly
/// adjacent neighbors against each other.
pub open spec fn sh_found(cs: Seq<Segment>, seg: Segment, is_start: bool) -> Option<
    (Segment, Segment),
> {
    let nb = sh_neighbors(cs, seg);
    if is_start {
        if nb.0 is Some && intersect_seg_spec(nb.0->0, seg) {
            Some((seg, nb.0->0))
        } else if nb.1 is Some && intersect_seg_spec(nb.1->0, seg) {
            Some((seg, nb.1->0))
        } else {
            None
        }
    } else {
        if nb.0 is Some && nb.1 is Some && intersect_seg_spec(nb.0->0, nb.1->0) {
            Some((nb.0->0, nb.1->0))
        } else {
            None
        }
    }
}

/// The transition function: pop the next event, insert or remove its segment,
/// test the relevant neighbor pairs, and on the first intersection clear all
/// remaining work and record the pair as the terminal result.
pub open spec fn sh_next(m: ShModel) -> (ShModel, Action) {
    if m.events.len() == 0 {
        (m, Action::NoAction)
    } else {
        let e = m.events.last();
        let events0 = m.events.drop_last();
        let seg = m.segments[e.id as int];
        let cs1 = if e.is_start {
            seg_insert(m.cur_segments, seg)
        } else {
            seg_remove(m.cur_segments, seg)
        };
        let found = sh_found(cs1, seg, e.is_start);
        let next = if found is Some {
            ShModel {
                segments: m.segments,
                cur_segments: Seq::empty(),
                events: Seq::empty(),
                result: found,
            }
        } else {
            ShModel { segments: m.segments, cur_segments: cs1, events: events0, result: m.result }
        };
        (next, Action::Scan((seg, found, e.x)))
    }
}

pub open spec fn sh_wf(m: ShModel) -> bool {
    &&& m.segments.len() <= MAX_POINTS
    &&& forall|i: int| 0 <= i < m.segments.len() ==> valid_seg(#[trigger] m.segments[i])
    &&& forall|i: int| 0 <= i < m.cur_segments.len() ==> m.segments.contains(
        #[trigger] m.cur_segments[i],
    )
    &&& forall|i: int| 0 <= i < m.events.len() ==> (#[trigger] m.events[i]).id < m.segments.len()
    &&& m.cur_segments.len() + m.events.len() <= 2 * m.segments.len()
    &&& match m.result {
        None => true,
        Some((s1, s2)) => {
            &&& m.segments.contains(s1)
            &&& m.segments.contains(s2)
            &&& s1 != s2
            &&& intersect_seg_spec(s1, s2)
        },
    }
}

proof fn lemma_ev_insert_props(s: Seq<Event>, v: Event)
    ensures
        ev_insert(s, v).len() == s.len() + 1,
        forall|k: int|
            0 <= k < ev_insert(s, v).len() ==> (#[trigger] ev_insert(s, v)[k] == v || s.contains(
                ev_insert(s, v)[k],
            )),
{
    lemma_ev_lb_range(s, v);
    let i = ev_lb(s, v);
    let t = ev_insert(s, v);
    assert forall|k: int| 0 <= k < t.len() implies (#[trigger] t[k] == v || s.contains(t[k])) by {
        if k < i {
            assert(t[k] == s[k]);
        } else if k == i {
        } else {
            assert(t[k] == s[k - 1]);
        }
    }
}

proof fn lemma_seg_lb_prop(s: Seq<Segment>, v: Segment)
    ensures
        0 <= seg_lb(s, v) <= s.len(),
        forall|k: int|
            0 <= k < seg_lb(s, v) ==> seg_cmp(#[trigger] s[k], v) == core::cmp::Ordering::Less,
    decreases s.len(),
{
    if s.len() > 0 && seg_cmp(s[0], v) == core::cmp::Ordering::Less {
        lemma_seg_lb_prop(s.drop_first(), v);
        let rest = s.drop_first();
        assert forall|k: int|
            0 <= k < seg_lb(s, v) implies seg_cmp(
            #[trigger] s[k],
            v,
        ) == core::cmp::Ordering::Less by {
            if k > 0 {
                assert(s[k] == rest[k - 1]);
            }
        }
    }
}

proof fn lemma_seg_ub_prop(s: Seq<Segment>, v: Segment)
    ensures
        0 <= seg_ub(s, v) <= s.len(),
        seg_ub(s, v) < s.len() ==> seg_cmp(s[seg_ub(s, v)], v) == core::cmp::Ordering::Greater,
    decreases s.len(),
{
    if s.len() > 0 && seg_cmp(s[0], v) != core::cmp::Ordering::Greater {
        lemma_seg_ub_prop(s.drop_first(), v);
        let rest = s.drop_first();
        if seg_ub(s, v) < s.len() {
            assert(s[seg_ub(s, v)] == rest[seg_ub(rest, v)]);
        }
    }
}

proof fn lemma_seg_insert_props(s: Seq<Segment>, v: Segment)
    ensures
        s.len() <= seg_insert(s, v).len() <= s.len() + 1,
        forall|k: int|
            0 <= k < seg_insert(s, v).len() ==> (#[trigger] seg_insert(s, v)[k] == v || s.contains(
                seg_insert(s, v)[k],
            )),
{
    lemma_seg_lb_range(s, v);
    let i = seg_lb(s, v);
    let t = seg_insert(s, v);
    if i < s.len() && seg_cmp(s[i as int], v) == core::cmp::Ordering::Equal {
        assert forall|k: int| 0 <= k < t.len() implies (#[trigger] t[k] == v || s.contains(
            t[k],
        )) by {
            assert(s.contains(s[k]));
        }
    } else {
        assert forall|k: int| 0 <= k < t.len() implies (#[trigger] t[k] == v || s.contains(
            t[k],
        )) by {
            if k < i {
                assert(t[k] == s[k]);
            } else if k == i {
            } else {
                assert(t[k] == s[k - 1]);
            }
        }
    }
}

proof fn lemma_seg_remove_props(s: Seq<Segment>, v: Segment)
    ensures
        seg_remove(s, v).len() <= s.len(),
        forall|k: int|
            0 <= k < seg_remove(s, v).len() ==> s.contains(#[trigger] seg_remove(s, v)[k]),
{
    lemma_seg_lb_range(s, v);
    let i = seg_lb(s, v);
    let t = seg_remove(s, v);
    if i < s.len() && seg_cmp(s[i as int], v) == core::cmp::Ordering::Equal {
        assert forall|k: int| 0 <= k < t.len() implies s.contains(#[trigger] t[k]) by {
            if k < i {
                assert(t[k] == s[k]);
            } else {
                assert(t[k] == s[k + 1]);
            }
        }
    } else {
        assert forall|k: int| 0 <= k < t.len() implies s.contains(#[trigger] t[k]) by {
            assert(t[k] == s[k]);
        }
    }
}

fn ev_before_exec(c: &Event, e: &Event) -> (r: bool)
    ensures
        r == ev_before(*c, *e),
{
    c.x > e.x || (c.x == e.x && !c.is_start && e.is_start) || (c.x == e.x && c.is_start
        == e.is_start && c.id > e.id)
}

/// Inserts one event at its sorted position.
fn ev_insert_exec(events: &mut Vec<Event>, e: Event)
    requires
        old(events)@.len() < usize::MAX,
    ensures
        final(events)@ == ev_insert(old(events)@, e),
{
    let mut idx: usize = 0;
    let ghost s = events@;
    while idx < events.len() && ev_before_exec(&events[idx], &e)
        invariant
            0 <= idx <= s.len(),
            events@ == s,
            s.len() < usize::MAX,
            forall|k: int| 0 <= k < idx ==> ev_before(#[trigger] s[k], e),
        decreases s.len() - idx,
    {
        idx = idx + 1;
    }
    proof {
        lemma_ev_lb_at(s, e, idx as int);
    }
    events.insert(idx, e);
}

pub struct ShamosHoey;

/// Builds the initial sweep state directly from a segment list: the canonical
/// way to run the detector on an explicit segment set.
pub fn first_state_segments(segments: Vec<Segment>) -> (s: State)
    requires
        segments@.len() <= MAX_POINTS,
        forall|i: int| 0 <= i < segments@.len() ==> valid_seg(#[trigger] segments@[i]),
    ensures
        ShamosHoey::st_model(&s) == sh_first_segments(segments@),
        sh_wf(ShamosHoey::st_model(&s)),
{
    let ghost segs = segments@;
    let n = segments.len();
    let mut events: Vec<Event> = Vec::new();
    let mut i: usize = 0;
    while i < n
        invariant
            0 <= i <= n == segs.len(),
            segments@ == segs,
            segs.len() <= MAX_POINTS,
            events@.len() == i,
            forall|k: int| 0 <= k < events@.len() ==> (#[trigger] events@[k]).id < segs.len(),
            add_events(segs, i as int, true, events@) == add_events(segs, 0, true, Seq::empty()),
        decreases n - i,
    {
        let ghost before = events@;
        let e = Event { x: segments[i].a.x, id: i, is_start: true };
        ev_insert_exec(&mut events, e);
        proof {
            lemma_ev_insert_props(before, e);
            assert forall|k: int|
                0 <= k < events@.len() implies (#[trigger] events@[k]).id < segs.len() by {
                if events@[k] != e {
                    assert(before.contains(events@[k]));
                    let j = choose|j: int| 0 <= j < before.len() && before[j] == events@[k];
                }
            }
        }
        i = i + 1;
    }
    let ghost mid = events@;
    let mut i2: usize = 0;
    while i2 < n
        invariant
            0 <= i2 <= n == segs.len(),
            segments@ == segs,
            segs.len() <= MAX_POINTS,
            events@.len() == segs.len() + i2,
            forall|k: int| 0 <= k < events@.len() ==> (#[trigger] events@[k]).id < segs.len(),
            add_events(segs, i2 as int, false, events@) == add_events(segs, 0, false, mid),
            add_events(segs, 0, false, mid) == build_events(segs),
        decreases n - i2,
    {
        let ghost before = events@;
        let e = Event { x: segments[i2].b.x, id: i2, is_start: false };
        ev_insert_exec(&mut events, e);
        proof {
            lemma_ev_insert_props(before, e);
            assert forall|k: int|
                0 <= k < events@.len() implies (#[trigger] events@[k]).id < segs.len() by {
                if events@[k] != e {
                    assert(before.contains(events@[k]));
                    let j = choose|j: int| 0 <= j < before.len() && before[j] == events@[k];
                }
            }
        }
        i2 = i2 + 1;
    }
    State { segments, cur_segments: Vec::new(), events, result: None }
}

impl Algo for ShamosHoey {
    type State = State;

    type Action = Action;

    type StateModel = ShModel;

    type ActionModel = Action;

    open spec fn st_model(s: &State) -> ShModel {
        ShModel {
            segments: s.segments@,
            cur_segments: s.cur_segments@,
            events: s.events@,
            result: s.result,
        }
    }

    open spec fn act_model(a: &Action) -> Action {
        *a
    }

    open spec fn wf(m: ShModel) -> bool {
        sh_wf(m)
    }

    open spec fn measure(m: ShModel) -> nat {
        m.events.len()
    }

    open spec fn first_model(points: Seq<Point>) -> ShModel {
        sh_first(points)
    }

    open spec fn next_model(m: ShModel) -> (ShModel, Action) {
        sh_next(m)
    }

    open spec fn is_final_model(m: ShModel) -> bool {
        m.events.len() == 0
    }

    fn first_state(points: Vec<Point>) -> (s: State) {
        let sorted = sort_points(&points, &PointOrd::XY);
        proof {
            lemma_sort_spec_valid(PointOrd::XY, points@);
        }
        let n = sorted.len();
        let mut segments: Vec<Segment> = Vec::new();
        let mut k: usize = 0;
        while 2 * k + 1 < n
            invariant
                n == sorted@.len() <= MAX_POINTS,
                0 <= k,
                2 * k <= n,
                forall|t: int| 0 <= t < sorted@.len() ==> valid_point(#[trigger] sorted@[t]),
                segments@.len() == k,
                forall|t: int|
                    0 <= t < k ==> #[trigger] segments@[t] == seg_new_spec(
                        sorted@[2 * t],
                        sorted@[2 * t + 1],
                    ),
            decreases n - 2 * k,
        {
            segments.push(Segment::new(sorted[2 * k], sorted[2 * k + 1]));
            k = k + 1;
        }
        proof {
            assert(n - 1 <= 2 * k <= n);
            assert(k as int == (n as int) / 2);
            assert(segments@ =~= build_segments(sorted@));
            assert forall|t: int|
                0 <= t < segments@.len() implies valid_seg(#[trigger] segments@[t]) by {
                assert(segments@[t] == seg_new_spec(sorted@[2 * t], sorted@[2 * t + 1]));
            }
        }
        first_state_segments(segments)
    }

    fn next_state(state: State) -> (r: (State, Action)) {
        let State { segments, mut cur_segments, mut events, mut result } = state;
        let ghost m = ShModel {
            segments: segments@,
            cur_segments: cur_segments@,
            events: events@,
            result,
        };
        if events.len() == 0 {
            return (State { segments, cur_segments, events, result }, Action::NoAction);
        }
        let e = events.pop().unwrap();
        proof {
            assert(events@ =~= m.events.drop_last());
            assert((#[trigger] m.events[m.events.len() - 1]).id < m.segments.len());
            assert forall|k: int|
                0 <= k < cur_segments@.len() implies valid_seg(#[trigger] cur_segments@[k]) by {
                assert(m.segments.contains(cur_segments@[k]));
                let j = choose|j: int|
                    0 <= j < m.segments.len() && m.segments[j] == cur_segments@[k];
            }
        }
        let seg = segments[e.id];
        if e.is_start {
            insert_active(&mut cur_segments, &seg);
            proof {
                lemma_seg_insert_props(m.cur_segments, seg);
            }
        } else {
            remove_active(&mut cur_segments, &seg);
            proof {
                lemma_seg_remove_props(m.cur_segments, seg);
            }
        }
        let ghost cs1 = cur_segments@;
        proof {
            assert forall|k: int|
                0 <= k < cs1.len() implies m.segments.contains(#[trigger] cs1[k]) by {
                if cs1[k] != seg {
                    assert(m.cur_segments.contains(cs1[k]));
                    let j = choose|j: int|
                        0 <= j < m.cur_segments.len() && m.cur_segments[j] == cs1[k];
                    assert(m.segments.contains(m.cur_segments[j]));
                } else {
                    assert(m.segments[e.id as int] == seg);
                }
            }
            assert forall|k: int| 0 <= k < cs1.len() implies valid_seg(#[trigger] cs1[k]) by {
                assert(m.segments.contains(cs1[k]));
                let j = choose|j: int| 0 <= j < m.segments.len() && m.segments[j] == cs1[k];
            }
            lemma_seg_lb_prop(cs1, seg);
            lemma_seg_ub_prop(cs1, seg);
        }
        let lb = seg_lower_bound(&cur_segments, &seg);
        let ub = seg_upper_bound(&cur_segments, &seg);
        let prev: Option<Segment> = if lb > 0 {
            Some(cur_segments[lb - 1])
        } else {
            None
        };
        let nxt: Option<Segment> = if ub < cur_segments.len() {
            Some(cur_segments[ub])
        } else {
            None
        };
        let mut found: Option<(Segment, Segment)> = None;
        if e.is_start {
            if let Some(p) = prev {
                if intersect_seg(&p, &seg) {
                    found = Some((seg, p));
                }
            }
            if found.is_none() {
                if let Some(nx) = nxt {
                    if intersect_seg(&nx, &seg) {
                        found = Some((seg, nx));
                    }
                }
            }
        } else {
            if let Some(p) = prev {
                if let Some(nx) = nxt {
                    if intersect_seg(&p, &nx) {
                        found = Some((p, nx));
                    }
                }
            }
        }
        proof {
            assert(found == sh_found(cs1, seg, e.is_start));
            if found is Some {
                let pair = found->0;
                assert(seg_cmp(seg, seg) == core::cmp::Ordering::Equal);
                if lb > 0 {
                    assert(seg_cmp(cs1[lb - 1], seg) == core::cmp::Ordering::Less);
                }
                assert(m.segments.contains(pair.0) && m.segments.contains(pair.1) && pair.0
                    != pair.1 && intersect_seg_spec(pair.0, pair.1));
            }
        }
        let a;
        if found.is_some() {
            events.clear();
            result = found;
            cur_segments.clear();
            a = Action::Scan((seg, found, e.x));
        } else {
            a = Action::Scan((seg, found, e.x));
        }
        (State { segments, cur_segments, events, result }, a)
    }

    fn is_final(state: &State) -> (b: bool) {
        state.events.len() == 0
    }

    fn clone_state(state: &State) -> (s: State) {
        State {
            segments: clone_vec_copy(&state.segments),
            cur_segments: clone_vec_copy(&state.cur_segments),
            events: clone_vec_copy(&state.events),
            result: state.result,
        }
    }
}

proof fn lemma_add_events_props(segs: Seq<Segment>, i: int, start: bool, acc: Seq<Event>)
    requires
        0 <= i,
        forall|k: int| 0 <= k < acc.len() ==> (#[trigger] acc[k]).id < segs.len(),
    ensures
        add_events(segs, i, start, acc).len() == acc.len() + if i <= segs.len() {
            segs.len() - i
        } else {
            0
        },
        forall|k: int|
            0 <= k < add_events(segs, i, start, acc).len() ==> (#[trigger] add_events(
                segs,
                i,
                start,
                acc,
            )[k]).id < segs.len(),
    decreases segs.len() - i,
{
    if 0 <= i < segs.len() {
        let e = Event {
            x: if start {
                segs[i].a.x
            } else {
                segs[i].b.x
            },
            id: i as usize,
            is_start: start,
        };
        lemma_ev_insert_props(acc, e);
        let acc2 = ev_insert(acc, e);
        assert forall|k: int| 0 <= k < acc2.len() implies (#[trigger] acc2[k]).id < segs.len() by {
            if acc2[k] != e {
                assert(acc.contains(acc2[k]));
                let j = choose|j: int| 0 <= j < acc.len() && acc[j] == acc2[k];
            }
        }
        lemma_add_events_props(segs, i + 1, start, acc2);
    }
}

/// An input of at most one point yields no segment and no event: the sweep is
/// final at once, reporting no intersection.
pub proof fn lemma_sh_small_input(points: Seq<Point>)
    requires
        points.len() <= 1,
    ensures
        sh_first(points).events.len() == 0,
        sh_first(points).result is None,
{
    crate::common::lemma_sort_spec_multiset(PointOrd::XY, points);
    let sorted = sort_spec(PointOrd::XY, points);
    let segs = build_segments(sorted);
    assert(segs.len() == 0);
    lemma_add_events_props(segs, 0, true, Seq::empty());
    lemma_add_events_props(segs, 0, false, add_events(segs, 0, true, Seq::empty()));
}

/// The transition never touches the input segments, so they are those of the
/// initial state throughout a drive.
proof fn lemma_sh_segments_constant(
    points: Seq<Point>,
    states: Seq<ShModel>,
    actions: Seq<Action>,
    t: int,
)
    requires
        crate::algos::is_trace::<ShamosHoey>(points, states, actions),
        0 <= t < states.len(),
    ensures
        states[t].segments == build_segments(sort_spec(PointOrd::XY, points)),
    decreases t,
{
    if t > 0 {
        lemma_sh_segments_constant(points, states, actions, t - 1);
        assert(ShamosHoey::next_model(states[t - 1]) == (states[t], actions[t - 1]));
    }
}

/// What a reported intersection means: the pair recorded at the end of a
/// complete drive consists of two distinct input segments that genuinely
/// intersect — so a pairwise check over the input segments would find an
/// intersecting pair as well.
pub proof fn lemma_sh_reported_pair_intersects(
    points: Seq<Point>,
    states: Seq<ShModel>,
    actions: Seq<Action>,
    s1: Segment,
    s2: Segment,
)
    requires
        crate::algos::is_trace::<ShamosHoey>(points, states, actions),
        forall|i: int| 0 <= i < states.len() ==> sh_wf(#[trigger] states[i]),
        states[states.len() - 1].result == Some((s1, s2)),
    ensures
        ({
            let segs = build_segments(sort_spec(PointOrd::XY, points));
            exists|i: int, j: int|
                #![trigger segs[i], segs[j]]
                0 <= i < segs.len() && 0 <= j < segs.len() && i != j && segs[i] == s1 && segs[j]
                    == s2 && intersect_seg_spec(s1, s2)
        }),
{
    let last = states[states.len() - 1];
    lemma_sh_segments_constant(points, states, actions, states.len() - 1);
    let segs = build_segments(sort_spec(PointOrd::XY, points));
    assert(sh_wf(last));
    assert(segs.contains(s1));
    assert(segs.contains(s2));
    assert(s1 != s2);
    assert(intersect_seg_spec(s1, s2));
    let i = choose|i: int| 0 <= i < segs.len() && segs[i] == s1;
    let j = choose|j: int| 0 <= j < segs.len() && segs[j] == s2;
    assert(i != j);
    assert(0 <= i < segs.len() && 0 <= j < segs.len() && i != j && segs[i] == s1 && segs[j] == s2
        && intersect_seg_spec(s1, s2));
}

} // verus!
