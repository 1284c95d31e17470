//! Geometric primitives: points with bounded integer coordinates, the
//! orientation predicate, candidate pairs with an infinite sentinel, index and
//! coordinate ranges, comparators, and deterministic sorting.

use vstd::prelude::*;
use vstd::string::StrSliceExecFns;
use vstd::string::StringExecFns;

verus! {

/// Largest coordinate magnitude the library accepts. Keeping coordinates in
/// `[-MAX_COORD, MAX_COORD]` lets every predicate (orientation, squared
/// distance, scaled-centroid comparisons) be evaluated exactly in `i128`.
pub const MAX_COORD: i64 = 0x4000_0000;

/// Largest number of points a state may hold; bounds the sums that the
/// centroid comparator forms.
pub const MAX_POINTS: usize = 0x10_0000;

/// A point of the plane with exact integer coordinates.
#[derive(Copy, Clone, Debug, PartialEq, Eq, Structural)]
pub struct Point {
    pub x: i64,
    pub y: i64,
}

impl Point {
    pub fn new(x: i64, y: i64) -> (r: Point)
        ensures
            r == (Point { x, y }),
    {
        Point { x, y }
    }
}

pub open spec fn valid_point(p: Point) -> bool {
    &&& -MAX_COORD <= p.x <= MAX_COORD
    &&& -MAX_COORD <= p.y <= MAX_COORD
}

pub open spec fn valid_point_seq(s: Seq<Point>) -> bool {
    &&& s.len() <= MAX_POINTS
    &&& forall|i: int| 0 <= i < s.len() ==> valid_point(#[trigger] s[i])
}

/// Twice the signed area of the triangle `a b c`: positive for one turn
/// direction, negative for the other, zero iff the three points are collinear.
pub open spec fn rotation_spec(a: Point, b: Point, c: Point) -> int {
    a.x * (b.y - c.y) + b.x * (c.y - a.y) + c.x * (a.y - b.y)
}

/// Bound on a product from bounds on its factors.
pub proof fn lemma_abs_mul_le(x: int, y: int, bx: int, by: int)
    by (nonlinear_arith)
    requires
        -bx <= x <= bx,
        -by <= y <= by,
        0 <= bx,
        0 <= by,
    ensures
        -(bx * by) <= x * y <= bx * by,
{
}

/// Orientation predicate, computed exactly.
pub fn rotation(a: &Point, b: &Point, c: &Point) -> (r: i128)
    requires
        valid_point(*a),
        valid_point(*b),
        valid_point(*c),
    ensures
        r == rotation_spec(*a, *b, *c),
{
    let ax = a.x as i128;
    let ay = a.y as i128;
    let bx = b.x as i128;
    let by = b.y as i128;
    let cx = c.x as i128;
    let cy = c.y as i128;
    proof {
        lemma_abs_mul_le(ax as int, by - cy, MAX_COORD as int, 2 * MAX_COORD);
        lemma_abs_mul_le(bx as int, cy - ay, MAX_COORD as int, 2 * MAX_COORD);
        lemma_abs_mul_le(cx as int, ay - by, MAX_COORD as int, 2 * MAX_COORD);
    }
    ax * (by - cy) + bx * (cy - ay) + cx * (ay - by)
}

/// Squared Euclidean distance between two points.
pub open spec fn sq_dist(a: Point, b: Point) -> int {
    (a.x - b.x) * (a.x - b.x) + (a.y - b.y) * (a.y - b.y)
}

/// The squared length assigned to the infinite sentinel pair.
pub open spec fn inf_sq() -> int {
    i128::MAX as int
}

/// An unordered candidate pair of points. `Pair::inf()` is the sentinel used
/// as the initial candidate before any finite pair has been seen; its second
/// point sits at the largest representable coordinates, far outside the valid
/// coordinate range.
#[derive(Copy, Clone, Debug, PartialEq, Eq, Structural)]
pub struct Pair {
    pub a: Point,
    pub b: Point,
}

pub open spec fn inf_pair() -> Pair {
    Pair { a: Point { x: 0, y: 0 }, b: Point { x: i64::MAX, y: i64::MAX } }
}

pub open spec fn valid_pair(p: Pair) -> bool {
    p == inf_pair() || (valid_point(p.a) && valid_point(p.b))
}

/// Squared length of a candidate pair; the sentinel is infinitely long.
pub open spec fn pair_sq(p: Pair) -> int {
    if p == inf_pair() {
        inf_sq()
    } else {
        sq_dist(p.a, p.b)
    }
}

/// The candidate kept after comparing a challenger `cur` against the current
/// best: the challenger wins only when strictly closer.
pub open spec fn challenge(best: Pair, cur: Pair) -> Pair {
    if pair_sq(cur) < pair_sq(best) {
        cur
    } else {
        best
    }
}

/// The squared distance of two valid points is far below the infinite
/// sentinel.
pub proof fn lemma_valid_sq_bounded(a: Point, b: Point)
    requires
        valid_point(a),
        valid_point(b),
    ensures
        0 <= sq_dist(a, b) <= 0x8000_0000_0000_0000,
        sq_dist(a, b) < inf_sq(),
{
    let dx = a.x - b.x;
    let dy = a.y - b.y;
    assert(-2 * MAX_COORD <= dx <= 2 * MAX_COORD);
    assert(-2 * MAX_COORD <= dy <= 2 * MAX_COORD);
    assert(dx * dx <= (2 * MAX_COORD) * (2 * MAX_COORD)) by (nonlinear_arith)
        requires -2 * MAX_COORD <= dx <= 2 * MAX_COORD;
    assert(dy * dy <= (2 * MAX_COORD) * (2 * MAX_COORD)) by (nonlinear_arith)
        requires -2 * MAX_COORD <= dy <= 2 * MAX_COORD;
    assert(dx * dx >= 0) by (nonlinear_arith);
    assert(dy * dy >= 0) by (nonlinear_arith);
}

impl Pair {
    pub fn new(a: Point, b: Point) -> (r: Pair)
        ensures
            r == (Pair { a, b }),
    {
        Pair { a, b }
    }

    pub fn inf() -> (r: Pair)
        ensures
            r == inf_pair(),
    {
        Pair { a: Point { x: 0, y: 0 }, b: Point { x: i64::MAX, y: i64::MAX } }
    }

    /// Squared length of the pair, exactly; the sentinel reports `i128::MAX`,
    /// strictly longer than any pair of in-range points.
    pub fn square_len(&self) -> (r: i128)
        requires
            valid_pair(*self),
        ensures
            r == pair_sq(*self),
            *self != inf_pair() ==> r < i128::MAX,
    {
        if self.b.x == i64::MAX {
            proof {
                assert(*self == inf_pair());
            }
            i128::MAX
        } else {
            proof {
                lemma_valid_sq_bounded(self.a, self.b);
            }
            let dx = self.a.x as i128 - self.b.x as i128;
            let dy = self.a.y as i128 - self.b.y as i128;
            proof {
                lemma_abs_mul_le(dx as int, dx as int, 2 * MAX_COORD, 2 * MAX_COORD);
                lemma_abs_mul_le(dy as int, dy as int, 2 * MAX_COORD, 2 * MAX_COORD);
            }
            dx * dx + dy * dy
        }
    }
}

/// A half-open index range `[l, r)` over a points array, describing a
/// recursive sub-problem without copying data.
#[derive(Copy, Clone, Debug, PartialEq, Eq, Structural)]
pub struct IndexBorders {
    pub l: usize,
    pub r: usize,
}

pub open spec fn ib_left(b: IndexBorders) -> IndexBorders {
    IndexBorders { l: b.l, r: ((b.l + b.r) / 2) as usize }
}

pub open spec fn ib_right(b: IndexBorders) -> IndexBorders {
    IndexBorders { l: ((b.l + b.r) / 2) as usize, r: b.r }
}

impl IndexBorders {
    /// Left half under floor-midpoint splitting.
    pub fn left(&self) -> (r: IndexBorders)
        requires
            self.l <= self.r <= MAX_POINTS,
        ensures
            r == ib_left(*self),
    {
        IndexBorders { l: self.l, r: (self.l + self.r) / 2 }
    }

    /// Right half under floor-midpoint splitting.
    pub fn right(&self) -> (r: IndexBorders)
        requires
            self.l <= self.r <= MAX_POINTS,
        ensures
            r == ib_right(*self),
    {
        IndexBorders { l: (self.l + self.r) / 2, r: self.r }
    }
}

/// Floor-midpoint facts used by every splitting frame.
pub proof fn lemma_mid(l: int, r: int)
    requires
        0 <= l <= r,
    ensures
        (l + r) / 2 == l + (r - l) / 2,
        l <= (l + r) / 2 <= r,
        l < r ==> (l + r) / 2 < r,
{
    let n = r - l;
    assert(l + r == 2 * l + n);
    assert((2 * l + n) / 2 == l + n / 2) by (nonlinear_arith);
    assert(0 <= n / 2 <= n) by (nonlinear_arith)
        requires
            n >= 0,
    ;
    if l < r {
        assert(n / 2 < n) by (nonlinear_arith)
            requires
                n >= 1,
        ;
    }
}

/// Both halves of a range of size at least two are strictly smaller and
/// non-empty, which is what guarantees progress of the recursions.
pub proof fn lemma_split_sizes(b: IndexBorders)
    requires
        b.l + 2 <= b.r,
    ensures
        b.l < ib_left(b).r < b.r,
        ib_left(b).r - b.l == (b.r - b.l) / 2,
        b.r - ib_right(b).l == b.r - b.l - (b.r - b.l) / 2,
{
    let l = b.l as int;
    let r = b.r as int;
    let n = r - l;
    assert((l + r) / 2 == l + n / 2) by {
        assert(l + r == 2 * l + n);
        assert((2 * l + n) / 2 == l + n / 2) by (nonlinear_arith);
    }
    assert(0 < n / 2 < n);
}

/// A closed x-coordinate range, descriptive data carried by actions.
#[derive(Copy, Clone, Debug, PartialEq, Eq, Structural)]
pub struct HorBorders {
    pub l: i64,
    pub r: i64,
}

pub open spec fn hb_from_indexes(points: Seq<Point>, b: IndexBorders) -> HorBorders {
    HorBorders { l: points[b.l as int].x, r: points[b.r - 1].x }
}

impl HorBorders {
    pub fn new(l: i64, r: i64) -> (r_: HorBorders)
        ensures
            r_ == (HorBorders { l, r }),
    {
        HorBorders { l, r }
    }

    /// The x-range spanned by a non-empty index range of an x-sorted array:
    /// its leftmost and rightmost x.
    pub fn from_indexes(points: &Vec<Point>, borders: &IndexBorders) -> (r: HorBorders)
        requires
            borders.l < borders.r <= points@.len(),
        ensures
            r == hb_from_indexes(points@, *borders),
    {
        HorBorders { l: points[borders.l].x, r: points[borders.r - 1].x }
    }
}

/// Total comparison of points by x, mirroring a float comparison of the x
/// coordinates.
pub fn cmp_by_x(a: &Point, b: &Point) -> (r: core::cmp::Ordering)
    ensures
        r == cmp_x_spec(*a, *b),
{
    if a.x < b.x {
        core::cmp::Ordering::Less
    } else if a.x == b.x {
        core::cmp::Ordering::Equal
    } else {
        core::cmp::Ordering::Greater
    }
}

pub open spec fn cmp_x_spec(a: Point, b: Point) -> core::cmp::Ordering {
    if a.x < b.x {
        core::cmp::Ordering::Less
    } else if a.x == b.x {
        core::cmp::Ordering::Equal
    } else {
        core::cmp::Ordering::Greater
    }
}

/// Total comparison of points by y.
pub fn cmp_by_y(a: &Point, b: &Point) -> (r: core::cmp::Ordering)
    ensures
        r == cmp_y_spec(*a, *b),
{
    if a.y < b.y {
        core::cmp::Ordering::Less
    } else if a.y == b.y {
        core::cmp::Ordering::Equal
    } else {
        core::cmp::Ordering::Greater
    }
}

pub open spec fn cmp_y_spec(a: Point, b: Point) -> core::cmp::Ordering {
    if a.y < b.y {
        core::cmp::Ordering::Less
    } else if a.y == b.y {
        core::cmp::Ordering::Equal
    } else {
        core::cmp::Ordering::Greater
    }
}

/// Lexicographic comparison by x, then y.
pub fn cmp_by_xy(a: &Point, b: &Point) -> (r: core::cmp::Ordering)
    ensures
        r == cmp_xy_spec(*a, *b),
{
    let by_x = cmp_by_x(a, b);
    if matches!(by_x, core::cmp::Ordering::Equal) {
        cmp_by_y(a, b)
    } else {
        by_x
    }
}

pub open spec fn cmp_xy_spec(a: Point, b: Point) -> core::cmp::Ordering {
    if cmp_x_spec(a, b) == core::cmp::Ordering::Equal {
        cmp_y_spec(a, b)
    } else {
        cmp_x_spec(a, b)
    }
}

/// Strict lexicographic order by (x, y).
pub open spec fn lt_xy(a: Point, b: Point) -> bool {
    a.x < b.x || (a.x == b.x && a.y < b.y)
}

/// The orderings under which the library sorts points. `Around` is the polar
/// order about a pivot used by the Graham scan; `Centroid` orders hull
/// candidates around their centroid, given `k` times the centroid coordinates
/// (the coordinate sums `sx`, `sy` over the `k` candidates), so that the
/// rational centroid never has to be materialized.
#[derive(Copy, Clone, Debug)]
pub enum PointOrd {
    XY,
    YX,
    XDesc,
    Around(Point),
    Centroid(i128, i128, i128),
}

pub open spec fn valid_ord(o: PointOrd) -> bool {
    match o {
        PointOrd::XY => true,
        PointOrd::YX => true,
        PointOrd::XDesc => true,
        PointOrd::Around(p) => valid_point(p),
        PointOrd::Centroid(sx, sy, k) => {
            &&& 1 <= k <= 0xFFFF_FFFF_FFFF_FFFF
            &&& -(k * MAX_COORD) <= sx <= k * MAX_COORD
            &&& -(k * MAX_COORD) <= sy <= k * MAX_COORD
        },
    }
}

/// `k` times the orientation of `(a, b, centroid)` where the centroid is
/// `(sx / k, sy / k)`; same sign as the orientation itself since `k > 0`.
pub open spec fn k_rotation(sx: int, sy: int, k: int, a: Point, b: Point) -> int {
    a.x * (k * b.y - sy) + b.x * (sy - k * a.y) + sx * (a.y - b.y)
}

/// Rotational order of hull candidates about their centroid: points above the
/// centroid first, horizontal alignment broken toward larger x, otherwise by
/// orientation relative to the centroid.
pub open spec fn centroid_leq(sx: int, sy: int, k: int, a: Point, b: Point) -> bool {
    let a_up = k * a.y > sy;
    let b_up = k * b.y > sy;
    if a_up != b_up {
        a_up
    } else if k * a.y == sy && k * b.y == sy {
        k * a.x > sx || !(k * b.x > sx)
    } else {
        k_rotation(sx, sy, k, a, b) >= 0
    }
}

/// `a` precedes (or ties with) `b` under the ordering `o`.
pub open spec fn pt_leq(o: PointOrd, a: Point, b: Point) -> bool {
    match o {
        PointOrd::XY => a.x < b.x || (a.x == b.x && a.y <= b.y),
        PointOrd::YX => a.y < b.y || (a.y == b.y && a.x <= b.x),
        PointOrd::XDesc => a.x > b.x || (a.x == b.x && a.y >= b.y),
        PointOrd::Around(p) => {
            let rot = rotation_spec(p, a, b);
            rot < 0 || (rot == 0 && sq_dist(p, b) <= sq_dist(p, a))
        },
        PointOrd::Centroid(sx, sy, k) => centroid_leq(sx as int, sy as int, k as int, a, b),
    }
}

fn sq_dist_exec(a: &Point, b: &Point) -> (r: i128)
    requires
        valid_point(*a),
        valid_point(*b),
    ensures
        r == sq_dist(*a, *b),
{
    proof {
        lemma_valid_sq_bounded(*a, *b);
    }
    let dx = a.x as i128 - b.x as i128;
    let dy = a.y as i128 - b.y as i128;
    proof {
        lemma_abs_mul_le(dx as int, dx as int, 2 * MAX_COORD, 2 * MAX_COORD);
        lemma_abs_mul_le(dy as int, dy as int, 2 * MAX_COORD, 2 * MAX_COORD);
    }
    dx * dx + dy * dy
}

fn k_rotation_exec(sx: i128, sy: i128, k: i128, a: &Point, b: &Point) -> (r: i128)
    requires
        1 <= k <= 0xFFFF_FFFF_FFFF_FFFF,
        -(k * MAX_COORD) <= sx <= k * MAX_COORD,
        -(k * MAX_COORD) <= sy <= k * MAX_COORD,
        valid_point(*a),
        valid_point(*b),
    ensures
        r == k_rotation(sx as int, sy as int, k as int, *a, *b),
{
    proof {
        let kb: int = 0xFFFF_FFFF_FFFF_FFFF;
        lemma_abs_mul_le(k as int, MAX_COORD as int, kb, MAX_COORD as int);
        lemma_abs_mul_le(k as int, b.y as int, kb, MAX_COORD as int);
        lemma_abs_mul_le(k as int, a.y as int, kb, MAX_COORD as int);
        lemma_abs_mul_le(a.x as int, k * b.y - sy, MAX_COORD as int, 2 * kb * MAX_COORD);
        lemma_abs_mul_le(b.x as int, sy - k * a.y, MAX_COORD as int, 2 * kb * MAX_COORD);
        lemma_abs_mul_le(sx as int, a.y - b.y, kb * MAX_COORD, 2 * (MAX_COORD as int));
    }
    (a.x as i128) * (k * (b.y as i128) - sy) + (b.x as i128) * (sy - k * (a.y as i128)) + sx * (
    a.y as i128 - b.y as i128)
}

/// Decides `pt_leq(o, a, b)` exactly.
pub fn pt_leq_exec(o: &PointOrd, a: &Point, b: &Point) -> (r: bool)
    requires
        valid_ord(*o),
        valid_point(*a),
        valid_point(*b),
    ensures
        r == pt_leq(*o, *a, *b),
{
    match o {
        PointOrd::XY => a.x < b.x || (a.x == b.x && a.y <= b.y),
        PointOrd::YX => a.y < b.y || (a.y == b.y && a.x <= b.x),
        PointOrd::XDesc => a.x > b.x || (a.x == b.x && a.y >= b.y),
        PointOrd::Around(p) => {
            let rot = rotation(p, a, b);
            rot < 0 || (rot == 0 && sq_dist_exec(p, b) <= sq_dist_exec(p, a))
        },
        PointOrd::Centroid(sx, sy, k) => {
            proof {
                let kb: int = 0xFFFF_FFFF_FFFF_FFFF;
                lemma_abs_mul_le(*k as int, a.y as int, kb, MAX_COORD as int);
                lemma_abs_mul_le(*k as int, b.y as int, kb, MAX_COORD as int);
                lemma_abs_mul_le(*k as int, a.x as int, kb, MAX_COORD as int);
                lemma_abs_mul_le(*k as int, b.x as int, kb, MAX_COORD as int);
            }
            let a_up = *k * (a.y as i128) > *sy;
            let b_up = *k * (b.y as i128) > *sy;
            if a_up != b_up {
                a_up
            } else if *k * (a.y as i128) == *sy && *k * (b.y as i128) == *sy {
                *k * (a.x as i128) > *sx || !(*k * (b.x as i128) > *sx)
            } else {
                k_rotation_exec(*sx, *sy, *k, a, b) >= 0
            }
        },
    }
}

/// `x` inserted in front of the first element it precedes; the spec-level
/// definition every executable sort is pinned to.
pub open spec fn insert_sorted(o: PointOrd, s: Seq<Point>, x: Point) -> Seq<Point>
    decreases s.len(),
{
    if s.len() > 0 && !pt_leq(o, x, s[0]) {
        seq![s[0]] + insert_sorted(o, s.drop_first(), x)
    } else {
        seq![x] + s
    }
}

/// Insertion sort at the specification level: a deterministic function of the
/// input sequence, so two runs on the same input agree even where the ordering
/// ties distinct points.
pub open spec fn sort_spec(o: PointOrd, s: Seq<Point>) -> Seq<Point>
    decreases s.len(),
{
    if s.len() == 0 {
        Seq::empty()
    } else {
        insert_sorted(o, sort_spec(o, s.drop_last()), s.last())
    }
}

proof fn lemma_insert_sorted_split(o: PointOrd, s: Seq<Point>, x: Point, i: int)
    requires
        0 <= i <= s.len(),
        forall|k: int| 0 <= k < i ==> !pt_leq(o, x, #[trigger] s[k]),
        i == s.len() || pt_leq(o, x, s[i]),
    ensures
        insert_sorted(o, s, x) == s.insert(i, x),
    decreases i,
{
    if i == 0 {
        assert(insert_sorted(o, s, x) == seq![x] + s);
        assert(s.insert(0, x) =~= seq![x] + s);
    } else {
        let rest = s.drop_first();
        assert(!pt_leq(o, x, s[0]));
        assert(forall|k: int| 0 <= k < i - 1 ==> !pt_leq(o, x, #[trigger] rest[k]));
        lemma_insert_sorted_split(o, rest, x, i - 1);
        assert(insert_sorted(o, s, x) == seq![s[0]] + rest.insert(i - 1, x));
        assert(seq![s[0]] + rest.insert(i - 1, x) =~= s.insert(i, x));
    }
}

pub proof fn lemma_insert_sorted_multiset(o: PointOrd, s: Seq<Point>, x: Point)
    ensures
        insert_sorted(o, s, x).to_multiset() == s.to_multiset().insert(x),
        insert_sorted(o, s, x).len() == s.len() + 1,
    decreases s.len(),
{
    broadcast use vstd::seq_lib::group_to_multiset_ensures;

    if s.len() > 0 && !pt_leq(o, x, s[0]) {
        let rest = s.drop_first();
        lemma_insert_sorted_multiset(o, rest, x);
        let tail = insert_sorted(o, rest, x);
        assert(insert_sorted(o, s, x) == seq![s[0]] + tail);
        assert((seq![s[0]] + tail) =~= tail.insert(0, s[0]));
        vstd::seq_lib::to_multiset_insert(tail, 0, s[0]);
        assert(s =~= rest.insert(0, s[0]));
        vstd::seq_lib::to_multiset_insert(rest, 0, s[0]);
        assert(insert_sorted(o, s, x).to_multiset() =~= s.to_multiset().insert(x));
    } else {
        assert(insert_sorted(o, s, x) == seq![x] + s);
        assert((seq![x] + s) =~= s.insert(0, x));
        vstd::seq_lib::to_multiset_insert(s, 0, x);
        assert(insert_sorted(o, s, x).to_multiset() =~= s.to_multiset().insert(x));
    }
}

pub proof fn lemma_sort_spec_multiset(o: PointOrd, s: Seq<Point>)
    ensures
        sort_spec(o, s).to_multiset() == s.to_multiset(),
        sort_spec(o, s).len() == s.len(),
    decreases s.len(),
{
    broadcast use vstd::seq_lib::group_to_multiset_ensures;

    if s.len() == 0 {
    } else {
        let pre = s.drop_last();
        lemma_sort_spec_multiset(o, pre);
        lemma_insert_sorted_multiset(o, sort_spec(o, pre), s.last());
        assert(s =~= pre.push(s.last()));
        assert(pre.push(s.last()).to_multiset() =~= pre.to_multiset().insert(s.last()));
        assert(sort_spec(o, s).to_multiset() =~= s.to_multiset());
    }
}

/// Sorting a sequence of valid points yields valid points, in equal number.
pub proof fn lemma_sort_spec_valid(o: PointOrd, s: Seq<Point>)
    requires
        forall|i: int| 0 <= i < s.len() ==> valid_point(#[trigger] s[i]),
    ensures
        sort_spec(o, s).len() == s.len(),
        forall|i: int| 0 <= i < s.len() ==> valid_point(#[trigger] sort_spec(o, s)[i]),
        forall|i: int| 0 <= i < s.len() ==> s.contains(#[trigger] sort_spec(o, s)[i]),
{
    broadcast use vstd::seq_lib::group_to_multiset_ensures;

    lemma_sort_spec_multiset(o, s);
    let t = sort_spec(o, s);
    assert forall|i: int| 0 <= i < s.len() implies s.contains(#[trigger] t[i]) by {
        assert(t.contains(t[i]));
        assert(t.to_multiset().count(t[i]) > 0);
    }
}

/// The sequence is ordered by (x, y), position by position.
pub open spec fn sorted_xy(s: Seq<Point>) -> bool {
    forall|i: int, j: int|
        #![trigger s[i], s[j]]
        0 <= i <= j < s.len() ==> pt_leq(PointOrd::XY, s[i], s[j])
}

proof fn lemma_insert_sorted_xy(s: Seq<Point>, x: Point)
    requires
        sorted_xy(s),
    ensures
        sorted_xy(insert_sorted(PointOrd::XY, s, x)),
    decreases s.len(),
{
    broadcast use vstd::seq_lib::group_to_multiset_ensures;

    let o = PointOrd::XY;
    if s.len() > 0 && !pt_leq(o, x, s[0]) {
        let rest = s.drop_first();
        assert(sorted_xy(rest)) by {
            assert(forall|i: int, j: int|
                #![trigger rest[i], rest[j]]
                0 <= i <= j < rest.len() ==> rest[i] == s[i + 1] && rest[j] == s[j + 1]);
        }
        lemma_insert_sorted_xy(rest, x);
        let t1 = insert_sorted(o, rest, x);
        lemma_insert_sorted_multiset(o, rest, x);
        let t = insert_sorted(o, s, x);
        assert(t == seq![s[0]] + t1);
        assert forall|i: int, j: int|
            #![trigger t[i], t[j]]
            0 <= i <= j < t.len() implies pt_leq(o, t[i], t[j]) by {
            if i == 0 {
                if j > 0 {
                    assert(t[j] == t1[j - 1]);
                    assert(t1.contains(t1[j - 1]));
                    assert(t1.to_multiset().count(t1[j - 1]) > 0);
                    if t1[j - 1] == x {
                        assert(!pt_leq(o, x, s[0]));
                        assert(pt_leq(o, s[0], x));
                    } else {
                        assert(rest.to_multiset().count(t1[j - 1]) > 0);
                        assert(rest.contains(t1[j - 1]));
                        let w = choose|w: int| 0 <= w < rest.len() && rest[w] == t1[j - 1];
                        assert(rest[w] == s[w + 1]);
                        assert(pt_leq(o, s[0], s[w + 1]));
                    }
                }
            } else {
                assert(t[i] == t1[i - 1] && t[j] == t1[j - 1]);
            }
        }
    }
}

/// Sorting by (x, y) really orders the points by (x, y).
pub proof fn lemma_sort_spec_sorted_xy(s: Seq<Point>)
    ensures
        sorted_xy(sort_spec(PointOrd::XY, s)),
    decreases s.len(),
{
    if s.len() > 0 {
        lemma_sort_spec_sorted_xy(s.drop_last());
        lemma_insert_sorted_xy(sort_spec(PointOrd::XY, s.drop_last()), s.last());
    }
}

fn insert_point_sorted(res: &mut Vec<Point>, x: Point, o: &PointOrd)
    requires
        valid_ord(*o),
        valid_point(x),
        forall|i: int| 0 <= i < old(res)@.len() ==> valid_point(#[trigger] old(res)@[i]),
        old(res)@.len() < usize::MAX,
    ensures
        final(res)@ == insert_sorted(*o, old(res)@, x),
{
    let ghost s = res@;
    let mut idx: usize = 0;
    while idx < res.len() && !pt_leq_exec(o, &x, &res[idx])
        invariant
            valid_ord(*o),
            valid_point(x),
            res@ == s,
            forall|i: int| 0 <= i < s.len() ==> valid_point(#[trigger] s[i]),
            s.len() < usize::MAX,
            0 <= idx <= s.len(),
            forall|k: int| 0 <= k < idx ==> !pt_leq(*o, x, #[trigger] s[k]),
        decreases s.len() - idx,
    {
        idx = idx + 1;
    }
    proof {
        lemma_insert_sorted_split(*o, s, x, idx as int);
    }
    res.insert(idx, x);
}

/// Sorts the points under the ordering `o`; the result is exactly
/// `sort_spec(o, v)`.
pub fn sort_points(v: &Vec<Point>, o: &PointOrd) -> (r: Vec<Point>)
    requires
        valid_ord(*o),
        forall|i: int| 0 <= i < v@.len() ==> valid_point(#[trigger] v@[i]),
    ensures
        r@ == sort_spec(*o, v@),
{
    let mut res: Vec<Point> = Vec::new();
    let n = v.len();
    let mut i: usize = 0;
    while i < n
        invariant
            valid_ord(*o),
            n == v@.len(),
            forall|k: int| 0 <= k < v@.len() ==> valid_point(#[trigger] v@[k]),
            0 <= i <= n,
            res@ == sort_spec(*o, v@.take(i as int)),
        decreases n - i,
    {
        proof {
            lemma_sort_spec_valid(*o, v@.take(i as int));
            assert(res@.len() == i);
        }
        insert_point_sorted(&mut res, v[i], o);
        proof {
            let pre = v@.take(i as int);
            let cur = v@.take(i + 1);
            assert(cur.drop_last() =~= pre);
            assert(cur.last() == v@[i as int]);
            assert(res@ == sort_spec(*o, cur));
        }
        i = i + 1;
    }
    proof {
        assert(v@.take(n as int) =~= v@);
    }
    res
}

/// Sorts the sub-range `[l, r)` of `v` in place under the ordering `o`,
/// leaving everything outside the range unchanged.
pub fn sort_range(v: &mut Vec<Point>, l: usize, r: usize, o: &PointOrd)
    requires
        valid_ord(*o),
        l <= r <= old(v)@.len(),
        forall|i: int| 0 <= i < old(v)@.len() ==> valid_point(#[trigger] old(v)@[i]),
    ensures
        final(v)@ == old(v)@.take(l as int) + sort_spec(*o, old(v)@.subrange(l as int, r as int))
            + old(v)@.skip(r as int),
        final(v)@.len() == old(v)@.len(),
{
    let ghost orig = v@;
    let mut sub: Vec<Point> = Vec::new();
    let mut i: usize = l;
    while i < r
        invariant
            l <= i <= r <= v@.len(),
            v@ == orig,
            sub@ == orig.subrange(l as int, i as int),
        decreases r - i,
    {
        sub.push(v[i]);
        proof {
            assert(sub@ =~= orig.subrange(l as int, i + 1));
        }
        i = i + 1;
    }
    proof {
        assert(forall|k: int| 0 <= k < sub@.len() ==> valid_point(#[trigger] sub@[k]));
    }
    let sorted = sort_points(&sub, o);
    proof {
        lemma_sort_spec_valid(*o, sub@);
    }
    let mut j: usize = 0;
    while j < sorted.len()
        invariant
            l <= r <= orig.len(),
            sorted@.len() == r - l,
            sorted@ == sort_spec(*o, orig.subrange(l as int, r as int)),
            0 <= j <= sorted@.len(),
            v@.len() == orig.len(),
            forall|k: int| 0 <= k < l ==> v@[k] == orig[k],
            forall|k: int| 0 <= k < j ==> v@[l + k] == sorted@[k],
            forall|k: int| l + j <= k < orig.len() ==> v@[k] == orig[k],
        decreases sorted@.len() - j,
    {
        let xj = sorted[j];
        v[l + j] = xj;
        j = j + 1;
    }
    proof {
        assert(final(v)@ =~= orig.take(l as int) + sorted@ + orig.skip(r as int));
    }
}

/// Facts about squares of differences.
pub proof fn lemma_square_facts(x: int, y: int)
    by (nonlinear_arith)
    ensures
        x * x >= 0,
        (x - y) * (x - y) == (y - x) * (y - x),
{
}

/// The squared distance is symmetric and never negative.
pub proof fn lemma_sq_dist_sym(a: Point, b: Point)
    ensures
        sq_dist(a, b) == sq_dist(b, a),
        sq_dist(a, b) >= 0,
{
    lemma_square_facts(a.x as int, b.x as int);
    lemma_square_facts(a.y as int, b.y as int);
    lemma_square_facts(a.x - b.x, 0);
    lemma_square_facts(a.y - b.y, 0);
}

/// A pair's squared length lies between zero and the infinite sentinel.
pub proof fn lemma_pair_sq_range(p: Pair)
    requires
        valid_pair(p),
    ensures
        0 <= pair_sq(p) <= inf_sq(),
{
    if p != inf_pair() {
        lemma_valid_sq_bounded(p.a, p.b);
    }
}

/// An element-wise copy of a vector of copyable values.
pub fn clone_vec_copy<T: Copy>(v: &Vec<T>) -> (r: Vec<T>)
    ensures
        r@ == v@,
{
    let mut r: Vec<T> = Vec::new();
    let mut i: usize = 0;
    while i < v.len()
        invariant
            0 <= i <= v@.len(),
            r@ == v@.take(i as int),
        decreases v@.len() - i,
    {
        r.push(v[i]);
        proof {
            assert(r@ =~= v@.take(i + 1));
        }
        i = i + 1;
    }
    proof {
        assert(v@.take(v@.len() as int) =~= v@);
    }
    r
}

/// Index of the first lexicographically smallest point among the first `n`.
pub open spec fn argmin_xy_upto(s: Seq<Point>, n: int) -> int
    decreases n,
{
    if n <= 1 {
        0
    } else {
        let p = argmin_xy_upto(s, n - 1);
        if lt_xy(s[n - 1], s[p]) {
            n - 1
        } else {
            p
        }
    }
}

/// Index of the first lexicographically smallest point.
pub open spec fn argmin_xy(s: Seq<Point>) -> int {
    argmin_xy_upto(s, s.len() as int)
}

pub proof fn lemma_argmin_xy_upto_in_range(s: Seq<Point>, n: int)
    requires
        1 <= n <= s.len(),
    ensures
        0 <= argmin_xy_upto(s, n) < n,
    decreases n,
{
    if n > 1 {
        lemma_argmin_xy_upto_in_range(s, n - 1);
    }
}

/// Finds the first index of the lexicographically smallest point.
pub fn find_min_xy(v: &Vec<Point>) -> (r: usize)
    requires
        v@.len() > 0,
    ensures
        r as int == argmin_xy(v@),
        r < v@.len(),
{
    let mut best: usize = 0;
    let mut i: usize = 1;
    proof {
        lemma_argmin_xy_upto_in_range(v@, v@.len() as int);
    }
    while i < v.len()
        invariant
            1 <= i <= v@.len(),
            best as int == argmin_xy_upto(v@, i as int),
            0 <= best < i,
        decreases v@.len() - i,
    {
        let cand = v[i];
        let cur = v[best];
        if cand.x < cur.x || (cand.x == cur.x && cand.y < cur.y) {
            best = i;
        }
        i = i + 1;
    }
    best
}

/// The floor of the square root of a non-negative number.
pub open spec fn sqrt_floor(s: int) -> int {
    choose|r: int| r >= 0 && #[trigger] (r * r) <= s && (r + 1) * (r + 1) > s
}

pub proof fn lemma_sqrt_floor_unique(s: int, r: int)
    requires
        r >= 0,
        r * r <= s,
        (r + 1) * (r + 1) > s,
    ensures
        sqrt_floor(s) == r,
{
    assert(exists|q: int| q >= 0 && #[trigger] (q * q) <= s && (q + 1) * (q + 1) > s) by {
        assert(r >= 0 && r * r <= s && (r + 1) * (r + 1) > s);
    }
    let q = sqrt_floor(s);
    assert(q >= 0 && q * q <= s && (q + 1) * (q + 1) > s);
    assert(q == r) by (nonlinear_arith)
        requires
            r >= 0,
            r * r <= s,
            (r + 1) * (r + 1) > s,
            q >= 0,
            q * q <= s,
            (q + 1) * (q + 1) > s,
    ;
}

/// Integer square root by binary search.
pub fn isqrt(s: i128) -> (r: i64)
    requires
        0 <= s < 0x1_0000_0000_0000_0000,
    ensures
        r as int == sqrt_floor(s as int),
        0 <= r <= 0x1_0000_0000,
        (r as int) * (r as int) <= s as int,
        (r as int + 1) * (r as int + 1) > s as int,
{
    let mut lo: i64 = 0;
    let mut hi: i64 = 0x1_0000_0000;
    proof {
        assert((hi as int) * (hi as int) == 0x1_0000_0000_0000_0000);
    }
    while lo + 1 < hi
        invariant
            0 <= lo < hi <= 0x1_0000_0000,
            (lo as int) * (lo as int) <= s as int,
            (hi as int) * (hi as int) > s as int,
        decreases hi - lo,
    {
        let mid = lo + (hi - lo) / 2;
        proof {
            lemma_abs_mul_le(mid as int, mid as int, 0x1_0000_0000, 0x1_0000_0000);
        }
        if (mid as i128) * (mid as i128) <= s {
            lo = mid;
        } else {
            hi = mid;
        }
    }
    proof {
        lemma_sqrt_floor_unique(s as int, lo as int);
    }
    lo
}

/// The half-width reported for a strip bounded by the square root of `s`;
/// the infinite sentinel spans every representable coordinate.
pub open spec fn strip_h(s: int) -> int {
    if s == inf_sq() {
        2 * MAX_COORD + 1
    } else {
        sqrt_floor(s)
    }
}

/// Computes `strip_h` for the squared length of a valid pair.
pub fn strip_h_exec(s: i128) -> (r: i64)
    requires
        s == inf_sq() || 0 <= s < 0x1_0000_0000_0000_0000,
    ensures
        r as int == strip_h(s as int),
        0 <= r <= 0x1_0000_0000,
{
    if s == i128::MAX {
        2 * MAX_COORD + 1
    } else {
        isqrt(s)
    }
}

/// `d` exceeds the square root of `s` (`s` may be the infinite sentinel, which
/// nothing exceeds).
pub open spec fn gt_sqrt(d: int, s: int) -> bool {
    s != inf_sq() && d > 0 && d * d > s
}

/// The magnitude of `d` is strictly below the square root of `s`.
pub open spec fn abs_lt_sqrt(d: int, s: int) -> bool {
    s == inf_sq() || d * d < s
}

/// The magnitude of `d` is at most the square root of `s`.
pub open spec fn abs_le_sqrt(d: int, s: int) -> bool {
    s == inf_sq() || d * d <= s
}

pub fn gt_sqrt_exec(d: i128, s: i128) -> (r: bool)
    requires
        -0x1_0000_0000_0000 <= d <= 0x1_0000_0000_0000,
    ensures
        r == gt_sqrt(d as int, s as int),
{
    proof {
        lemma_abs_mul_le(d as int, d as int, 0x1_0000_0000_0000, 0x1_0000_0000_0000);
    }
    s != i128::MAX && d > 0 && d * d > s
}

pub fn abs_lt_sqrt_exec(d: i128, s: i128) -> (r: bool)
    requires
        -0x1_0000_0000_0000 <= d <= 0x1_0000_0000_0000,
    ensures
        r == abs_lt_sqrt(d as int, s as int),
{
    proof {
        lemma_abs_mul_le(d as int, d as int, 0x1_0000_0000_0000, 0x1_0000_0000_0000);
    }
    s == i128::MAX || d * d < s
}

pub fn abs_le_sqrt_exec(d: i128, s: i128) -> (r: bool)
    requires
        -0x1_0000_0000_0000 <= d <= 0x1_0000_0000_0000,
    ensures
        r == abs_le_sqrt(d as int, s as int),
{
    proof {
        lemma_abs_mul_le(d as int, d as int, 0x1_0000_0000_0000, 0x1_0000_0000_0000);
    }
    s == i128::MAX || d * d <= s
}

/// The decimal digits of `s` from position `i` on, accumulated onto `acc`;
/// nothing if a non-digit appears or the value leaves the machine range.
pub open spec fn parse_digits(s: Seq<char>, i: int, acc: int) -> Option<int>
    decreases s.len() - i,
{
    if i < 0 || i >= s.len() {
        Some(acc)
    } else if s[i] < '0' || s[i] > '9' {
        None
    } else if acc * 10 + (s[i] as int - 48) > usize::MAX {
        None
    } else {
        parse_digits(s, i + 1, acc * 10 + (s[i] as int - 48))
    }
}

/// The machine-sized number a string denotes: an optional leading plus sign,
/// then at least one decimal digit, with no room for anything else.
pub open spec fn parse_usize_spec(s: Seq<char>) -> Option<int> {
    if s.len() == 0 {
        None
    } else if s[0] == '+' {
        if s.len() == 1 {
            None
        } else {
            parse_digits(s, 1, 0)
        }
    } else {
        parse_digits(s, 0, 0)
    }
}

/// Checks a point-count argument: it must be a decimal number greater than
/// three.
pub fn is_number(val: String) -> (r: Result<(), String>)
    ensures
        r is Ok <==> (match parse_usize_spec(val@) {
            Some(v) => v > 3,
            None => false,
        }),
{
    let s = val.as_str();
    let n = s.unicode_len();
    let mut i: usize = 0;
    if n > 0 && s.get_char(0) == '+' {
        i = 1;
    }
    if i >= n {
        return Err(String::from_str("failed to parse a number: the argument holds no digits"));
    }
    let ghost start = i as int;
    proof {
        assert(parse_usize_spec(val@) == parse_digits(val@, start, 0));
    }
    let mut acc: usize = 0;
    while i < n
        invariant
            val@ == s@,
            n == s@.len(),
            start <= i <= n,
            parse_usize_spec(val@) == parse_digits(val@, start, 0),
            parse_digits(val@, start, 0) == parse_digits(val@, i as int, acc as int),
        decreases n - i,
    {
        let c = s.get_char(i);
        if c < '0' || c > '9' {
            return Err(
                String::from_str("failed to parse a number: the argument holds no digits"),
            );
        }
        let d = (c as u32) - 48;
        let wide = (acc as u128) * 10 + (d as u128);
        if wide > usize::MAX as u128 {
            return Err(
                String::from_str("failed to parse a number: the argument holds no digits"),
            );
        }
        acc = wide as usize;
        i = i + 1;
    }
    if acc <= 3 {
        Err(String::from_str("the number of points should be greater than 3"))
    } else {
        Ok(())
    }
}

} // verus!
