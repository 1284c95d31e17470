//! Convex hull by divide-and-conquer with the same explicit-stack recursion
//! shape as the closest-pair stepper. Ranges of at most five points are solved
//! by a brute-force hull; larger ranges recurse on both halves and conquer by
//! finding the upper and lower tangents between the two sub-hulls.

use crate::algos::Algo;
use crate::common::HorBorders;
use crate::common::IndexBorders;
use crate::common::Pair;
use crate::common::Point;
use crate::common::PointOrd;
use crate::common::clone_vec_copy;
use crate::common::hb_from_indexes;
use crate::common::ib_left;
use crate::common::ib_right;
use crate::common::inf_pair;
use crate::common::lemma_mid;
use crate::common::lemma_sort_spec_multiset;
use crate::common::lemma_sort_spec_valid;
use crate::common::lemma_split_sizes;
use crate::common::lt_xy;
use crate::common::rotation;
use crate::common::rotation_spec;
use crate::common::sort_points;
use crate::common::sort_spec;
use crate::common::valid_point;
use crate::common::valid_point_seq;
use crate::common::MAX_COORD;
use vstd::prelude::*;

verus! {

/// Insertion into a hull-candidate list kept sorted by (x, y) without
/// duplicates: an element already present is not inserted again.
pub open spec fn insert_unique_spec(s: Seq<Point>, p: Point) -> Seq<Point>
    decreases s.len(),
{
    if s.len() == 0 {
        seq![p]
    } else if lt_xy(s[0], p) {
        seq![s[0]] + insert_unique_spec(s.drop_first(), p)
    } else if s[0] == p {
        s
    } else {
        seq![p] + s
    }
}

proof fn lemma_insert_unique_elems(s: Seq<Point>, p: Point)
    ensures
        s.len() <= insert_unique_spec(s, p).len() <= s.len() + 1,
        forall|k: int|
            0 <= k < insert_unique_spec(s, p).len() ==> (#[trigger] insert_unique_spec(s, p)[k]
                == p || s.contains(insert_unique_spec(s, p)[k])),
    decreases s.len(),
{
    if s.len() == 0 {
    } else if lt_xy(s[0], p) {
        lemma_insert_unique_elems(s.drop_first(), p);
        let t = insert_unique_spec(s, p);
        let t1 = insert_unique_spec(s.drop_first(), p);
        assert forall|k: int| 0 <= k < t.len() implies (#[trigger] t[k] == p || s.contains(
            t[k],
        )) by {
            if k == 0 {
                assert(t[k] == s[0]);
                assert(s.contains(s[0]));
            } else {
                assert(t[k] == t1[k - 1]);
                if t1[k - 1] != p {
                    let j = choose|j: int| 0 <= j < s.drop_first().len() && s.drop_first()[j]
                        == t1[k - 1];
                    assert(s[j + 1] == t1[k - 1]);
                }
            }
        }
    } else {
    }
}

proof fn lemma_insert_unique_split(s: Seq<Point>, p: Point, i: int)
    requires
        0 <= i <= s.len(),
        forall|k: int| 0 <= k < i ==> lt_xy(#[trigger] s[k], p),
        i == s.len() || !lt_xy(s[i], p),
    ensures
        insert_unique_spec(s, p) == if i < s.len() && s[i] == p {
            s
        } else {
            s.insert(i, p)
        },
    decreases i,
{
    if i == 0 {
        if s.len() == 0 {
            assert(insert_unique_spec(s, p) =~= s.insert(0, p));
        } else if s[0] == p {
        } else {
            assert(insert_unique_spec(s, p) =~= s.insert(0, p));
        }
    } else {
        let rest = s.drop_first();
        assert(forall|k: int| 0 <= k < i - 1 ==> lt_xy(#[trigger] rest[k], p));
        lemma_insert_unique_split(rest, p, i - 1);
        if i < s.len() && s[i] == p {
            assert(rest[i - 1] == p);
            assert(insert_unique_spec(s, p) == seq![s[0]] + rest);
            assert(seq![s[0]] + rest =~= s);
        } else {
            assert(insert_unique_spec(s, p) == seq![s[0]] + rest.insert(i - 1, p));
            assert(seq![s[0]] + rest.insert(i - 1, p) =~= s.insert(i, p));
        }
    }
}

/// Inserts a point into a sorted candidate list unless it is already there.
pub fn insert_unique(vec: &mut Vec<Point>, p: &Point)
    requires
        old(vec)@.len() < usize::MAX,
    ensures
        final(vec)@ == insert_unique_spec(old(vec)@, *p),
{
    let ghost s = vec@;
    let mut idx: usize = 0;
    while idx < vec.len() && (vec[idx].x < p.x || (vec[idx].x == p.x && vec[idx].y < p.y))
        invariant
            vec@ == s,
            s.len() < usize::MAX,
            0 <= idx <= s.len(),
            forall|k: int| 0 <= k < idx ==> lt_xy(#[trigger] s[k], *p),
        decreases s.len() - idx,
    {
        idx = idx + 1;
    }
    proof {
        lemma_insert_unique_split(s, *p, idx as int);
    }
    if idx < vec.len() {
        let w = vec[idx];
        if w.x == p.x && w.y == p.y {
            proof {
                assert(s[idx as int] == *p);
            }
            return ;
        }
    }
    proof {
        assert(!(idx < s.len() && s[idx as int] == *p));
    }
    vec.insert(idx, *p);
}

/// Number of points of the range whose orientation against the line through
/// `a` and `b` is non-negative.
pub open spec fn count_pos(pts: Seq<Point>, l: int, k: int, a: Point, b: Point) -> int
    decreases k - l,
{
    if k <= l {
        0
    } else {
        count_pos(pts, l, k - 1, a, b) + if rotation_spec(a, b, pts[k - 1]) >= 0 {
            1int
        } else {
            0int
        }
    }
}

/// Number of points of the range whose orientation against the line through
/// `a` and `b` is non-positive.
pub open spec fn count_neg(pts: Seq<Point>, l: int, k: int, a: Point, b: Point) -> int
    decreases k - l,
{
    if k <= l {
        0
    } else {
        count_neg(pts, l, k - 1, a, b) + if rotation_spec(a, b, pts[k - 1]) <= 0 {
            1int
        } else {
            0int
        }
    }
}

/// Considers the pair `(pts[i], pts[j])`: both ends are kept as hull
/// candidates when every point of the range lies on one side of their line.
pub open spec fn bfh_consider(pts: Seq<Point>, l: int, r: int, i: int, j: int, res: Seq<Point>) -> Seq<
    Point,
> {
    if count_pos(pts, l, r, pts[i], pts[j]) == r - l || count_neg(pts, l, r, pts[i], pts[j]) == r
        - l {
        insert_unique_spec(insert_unique_spec(res, pts[i]), pts[j])
    } else {
        res
    }
}

pub open spec fn bfh_inner(pts: Seq<Point>, l: int, r: int, i: int, j: int, res: Seq<Point>) -> Seq<
    Point,
>
    decreases r - j,
{
    if j >= r {
        res
    } else {
        bfh_inner(pts, l, r, i, j + 1, bfh_consider(pts, l, r, i, j, res))
    }
}

pub open spec fn bfh_rows(pts: Seq<Point>, l: int, r: int, i: int, res: Seq<Point>) -> Seq<Point>
    decreases r - i,
{
    if i >= r {
        res
    } else {
        bfh_rows(pts, l, r, i + 1, bfh_inner(pts, l, r, i, i + 1, res))
    }
}

/// The hull candidates of the range, sorted by (x, y) and without duplicates.
pub open spec fn bfh_candidates(pts: Seq<Point>, l: int, r: int) -> Seq<Point> {
    bfh_rows(pts, l, r, l, Seq::empty())
}

/// Sum of the x coordinates of a candidate list.
pub open spec fn sum_x(s: Seq<Point>) -> int
    decreases s.len(),
{
    if s.len() == 0 {
        0
    } else {
        sum_x(s.drop_last()) + s.last().x
    }
}

/// Sum of the y coordinates of a candidate list.
pub open spec fn sum_y(s: Seq<Point>) -> int
    decreases s.len(),
{
    if s.len() == 0 {
        0
    } else {
        sum_y(s.drop_last()) + s.last().y
    }
}

/// The brute-force hull of a range: every pair of points all other points lie
/// on one side of, sorted into one rotational cyclic order around the
/// candidates' centroid.
pub open spec fn bf_hull(pts: Seq<Point>, l: int, r: int) -> Seq<Point> {
    let res = bfh_candidates(pts, l, r);
    if res.len() == 0 {
        res
    } else {
        sort_spec(
            PointOrd::Centroid(sum_x(res) as i128, sum_y(res) as i128, res.len() as i128),
            res,
        )
    }
}

/// A value occurs among the points of the range `[l, r)`.
pub open spec fn in_range(pts: Seq<Point>, l: int, r: int, x: Point) -> bool {
    exists|t: int| l <= t < r && pts[t] == x
}

proof fn lemma_insert_unique_subset(s: Seq<Point>, p: Point)
    ensures
        forall|x: Point|
            #[trigger] insert_unique_spec(s, p).contains(x) ==> x == p || s.contains(x),
{
    lemma_insert_unique_elems(s, p);
    let t = insert_unique_spec(s, p);
    assert forall|x: Point| #[trigger] t.contains(x) implies x == p || s.contains(x) by {
        let k = choose|k: int| 0 <= k < t.len() && t[k] == x;
        assert(t[k] == p || s.contains(t[k]));
    }
}

proof fn lemma_bfh_inner_subset(pts: Seq<Point>, l: int, r: int, i: int, j: int, res: Seq<Point>)
    requires
        0 <= l <= i < r,
        l <= j,
    ensures
        forall|x: Point|
            #[trigger] bfh_inner(pts, l, r, i, j, res).contains(x) ==> res.contains(x) || in_range(
                pts,
                l,
                r,
                x,
            ),
    decreases r - j,
{
    if j >= r {
    } else {
        let mid = bfh_consider(pts, l, r, i, j, res);
        let s1 = insert_unique_spec(res, pts[i]);
        lemma_insert_unique_subset(res, pts[i]);
        lemma_insert_unique_subset(s1, pts[j]);
        lemma_bfh_inner_subset(pts, l, r, i, j + 1, mid);
        assert forall|x: Point| #[trigger] bfh_inner(pts, l, r, i, j, res).contains(
            x,
        ) implies res.contains(x) || in_range(pts, l, r, x) by {
            assert(bfh_inner(pts, l, r, i, j, res) == bfh_inner(pts, l, r, i, j + 1, mid));
            if mid.contains(x) && !res.contains(x) {
                assert(x == pts[j] || s1.contains(x));
                if x == pts[j] {
                    assert(l <= j < r && pts[j] == x);
                } else {
                    assert(x == pts[i] || res.contains(x));
                    if x == pts[i] {
                        assert(l <= i < r && pts[i] == x);
                    }
                }
            }
        }
    }
}

proof fn lemma_bfh_rows_subset(pts: Seq<Point>, l: int, r: int, i: int, res: Seq<Point>)
    requires
        0 <= l <= i,
    ensures
        forall|x: Point|
            #[trigger] bfh_rows(pts, l, r, i, res).contains(x) ==> res.contains(x) || in_range(
                pts,
                l,
                r,
                x,
            ),
    decreases r - i,
{
    if i >= r {
    } else {
        let mid = bfh_inner(pts, l, r, i, i + 1, res);
        lemma_bfh_inner_subset(pts, l, r, i, i + 1, res);
        lemma_bfh_rows_subset(pts, l, r, i + 1, mid);
        assert forall|x: Point| #[trigger] bfh_rows(pts, l, r, i, res).contains(
            x,
        ) implies res.contains(x) || in_range(pts, l, r, x) by {
            assert(bfh_rows(pts, l, r, i, res) == bfh_rows(pts, l, r, i + 1, mid));
        }
    }
}

/// Every point of the brute-force candidate list is a point of the range.
pub proof fn lemma_bfh_candidates_subset(pts: Seq<Point>, l: int, r: int)
    requires
        0 <= l,
    ensures
        forall|x: Point| #[trigger] bfh_candidates(pts, l, r).contains(x) ==> in_range(pts, l, r, x),
{
    lemma_bfh_rows_subset(pts, l, r, l, Seq::empty());
}

/// Solves a range of at most five points by the cubic brute-force hull.
fn brute_force(borders: &IndexBorders, points: &Vec<Point>) -> (res: Vec<Point>)
    requires
        borders.l <= borders.r <= points@.len(),
        borders.r - borders.l <= 5,
        valid_point_seq(points@),
    ensures
        res@ == bf_hull(points@, borders.l as int, borders.r as int),
        forall|k: int| 0 <= k < res@.len() ==> valid_point(#[trigger] res@[k]),
{
    let l = borders.l;
    let r = borders.r;
    let ghost pts = points@;
    let mut res: Vec<Point> = Vec::new();
    proof {
        lemma_bfh_candidates_subset(pts, l as int, r as int);
    }
    let mut i: usize = l;
    while i < r
        invariant
            l <= i <= r <= pts.len(),
            r - l <= 5,
            pts == points@,
            valid_point_seq(pts),
            res@.len() <= 8 * (i - l),
            bfh_rows(pts, l as int, r as int, i as int, res@) == bfh_candidates(
                pts,
                l as int,
                r as int,
            ),
        decreases r - i,
    {
        let ghost res_enter = res@;
        proof {
            assert(bfh_rows(pts, l as int, r as int, i as int, res_enter) == bfh_rows(
                pts,
                l as int,
                r as int,
                i + 1,
                bfh_inner(pts, l as int, r as int, i as int, i + 1, res_enter),
            ));
        }
        let mut j: usize = i + 1;
        while j < r
            invariant
                l <= i < j <= r <= pts.len(),
                r - l <= 5,
                pts == points@,
                valid_point_seq(pts),
                res@.len() <= 8 * (i - l) + 2 * (j - i - 1),
                bfh_inner(pts, l as int, r as int, i as int, j as int, res@) == bfh_inner(
                    pts,
                    l as int,
                    r as int,
                    i as int,
                    i + 1,
                    res_enter,
                ),
            decreases r - j,
        {
            let ghost res_j = res@;
            // count the points on each side of the line through points i and j
            let pi = points[i];
            let pj = points[j];
            let mut pos: usize = 0;
            let mut neg: usize = 0;
            let mut k: usize = l;
            while k < r
                invariant
                    l <= k <= r <= pts.len(),
                    pts == points@,
                    valid_point_seq(pts),
                    l <= i < r,
                    l <= j < r,
                    pi == pts[i as int],
                    pj == pts[j as int],
                    pos == count_pos(pts, l as int, k as int, pi, pj),
                    neg == count_neg(pts, l as int, k as int, pi, pj),
                    pos <= k - l,
                    neg <= k - l,
                decreases r - k,
            {
                let rot = rotation(&pi, &pj, &points[k]);
                if rot >= 0 {
                    pos = pos + 1;
                }
                if rot <= 0 {
                    neg = neg + 1;
                }
                k = k + 1;
            }
            if pos == r - l || neg == r - l {
                insert_unique(&mut res, &pi);
                proof {
                    lemma_insert_unique_elems(res_j, pi);
                }
                insert_unique(&mut res, &pj);
                proof {
                    lemma_insert_unique_elems(insert_unique_spec(res_j, pi), pj);
                }
            }
            proof {
                assert(res@ == bfh_consider(pts, l as int, r as int, i as int, j as int, res_j));
                assert(bfh_inner(pts, l as int, r as int, i as int, j as int, res_j) == bfh_inner(
                    pts,
                    l as int,
                    r as int,
                    i as int,
                    j + 1,
                    res@,
                ));
            }
            j = j + 1;
        }
        i = i + 1;
    }
    // sort the candidates into a rotational order around their centroid
    proof {
        assert forall|k: int| 0 <= k < res@.len() implies valid_point(#[trigger] res@[k]) by {
            assert(res@.contains(res@[k]));
            assert(in_range(pts, l as int, r as int, res@[k]));
            let t = choose|t: int| l <= t < r && pts[t] == res@[k];
            assert(valid_point(pts[t]));
        }
    }
    let kcount = res.len();
    if kcount == 0 {
        return res;
    }
    let mut sx: i128 = 0;
    let mut sy: i128 = 0;
    let mut t: usize = 0;
    while t < kcount
        invariant
            0 <= t <= kcount == res@.len(),
            forall|k: int| 0 <= k < res@.len() ==> valid_point(#[trigger] res@[k]),
            sx == sum_x(res@.take(t as int)),
            sy == sum_y(res@.take(t as int)),
            -(t * MAX_COORD) <= sx <= t * MAX_COORD,
            -(t * MAX_COORD) <= sy <= t * MAX_COORD,
        decreases kcount - t,
    {
        let p = res[t];
        sx = sx + p.x as i128;
        sy = sy + p.y as i128;
        proof {
            assert(res@.take(t + 1).drop_last() =~= res@.take(t as int));
            assert(res@.take(t + 1).last() == res@[t as int]);
        }
        t = t + 1;
    }
    proof {
        assert(res@.take(res@.len() as int) =~= res@);
    }
    let sorted = sort_points(&res, &PointOrd::Centroid(sx, sy, kcount as i128));
    proof {
        lemma_sort_spec_valid(PointOrd::Centroid(sx, sy, kcount as i128), res@);
    }
    sorted
}

/// Index of the first point of smallest x among the first `n`.
pub open spec fn argmin_x_upto(s: Seq<Point>, n: int) -> int
    decreases n,
{
    if n <= 1 {
        0
    } else {
        let p = argmin_x_upto(s, n - 1);
        if s[n - 1].x < s[p].x {
            n - 1
        } else {
            p
        }
    }
}

/// Index of the last point of largest x among the first `n`.
pub open spec fn argmax_x_upto(s: Seq<Point>, n: int) -> int
    decreases n,
{
    if n <= 1 {
        0
    } else {
        let p = argmax_x_upto(s, n - 1);
        if s[n - 1].x >= s[p].x {
            n - 1
        } else {
            p
        }
    }
}

proof fn lemma_arg_x_in_range(s: Seq<Point>, n: int)
    requires
        1 <= n <= s.len(),
    ensures
        0 <= argmin_x_upto(s, n) < n,
        0 <= argmax_x_upto(s, n) < n,
    decreases n,
{
    if n > 1 {
        lemma_arg_x_in_range(s, n - 1);
    }
}

/// The first index of smallest x (how an iterator minimum breaks ties).
fn find_min_x(v: &Vec<Point>) -> (r: usize)
    requires
        v@.len() > 0,
    ensures
        r as int == argmin_x_upto(v@, v@.len() as int),
        r < v@.len(),
{
    proof {
        lemma_arg_x_in_range(v@, v@.len() as int);
    }
    let mut best: usize = 0;
    let mut i: usize = 1;
    while i < v.len()
        invariant
            1 <= i <= v@.len(),
            best as int == argmin_x_upto(v@, i as int),
            0 <= best < i,
        decreases v@.len() - i,
    {
        if v[i].x < v[best].x {
            best = i;
        }
        i = i + 1;
    }
    best
}

/// The last index of largest x (how an iterator maximum breaks ties).
fn find_max_x(v: &Vec<Point>) -> (r: usize)
    requires
        v@.len() > 0,
    ensures
        r as int == argmax_x_upto(v@, v@.len() as int),
        r < v@.len(),
{
    proof {
        lemma_arg_x_in_range(v@, v@.len() as int);
    }
    let mut best: usize = 0;
    let mut i: usize = 1;
    while i < v.len()
        invariant
            1 <= i <= v@.len(),
            best as int == argmax_x_upto(v@, i as int),
            0 <= best < i,
        decreases v@.len() - i,
    {
        if v[i].x >= v[best].x {
            best = i;
        }
        i = i + 1;
    }
    best
}

/// A convex turn for the tangent search.
pub open spec fn tangent_convex(a: Point, b: Point, c: Point) -> bool {
    rotation_spec(a, b, c) < 0
}

/// The next index around a hull, wrapping at the end.
pub open spec fn cyc_next(i: int, len: int) -> int {
    if i + 1 == len {
        0
    } else {
        i + 1
    }
}

/// The previous index around a hull, wrapping at the start.
pub open spec fn cyc_prev(i: int, len: int) -> int {
    if i == 0 {
        len - 1
    } else {
        i - 1
    }
}

/// Advance the left-hull pointer forward (cyclically) while the wedge with the
/// right-hull anchor is non-convex, for at most `fuel` steps.
pub open spec fn adv_li(left: Seq<Point>, right: Seq<Point>, li: int, ri: int, fuel: nat) -> int
    decreases fuel,
{
    if fuel == 0 {
        li
    } else if tangent_convex(left[cyc_next(li, left.len() as int)], left[li], right[ri]) {
        li
    } else {
        adv_li(left, right, cyc_next(li, left.len() as int), ri, (fuel - 1) as nat)
    }
}

/// Advance the right-hull pointer backward (cyclically) while the wedge with
/// the left-hull anchor is non-convex, for at most `fuel` steps; also reports
/// whether it moved at all.
pub open spec fn adv_ri(
    left: Seq<Point>,
    right: Seq<Point>,
    li: int,
    ri: int,
    fuel: nat,
    moved: bool,
) -> (int, bool)
    decreases fuel,
{
    if fuel == 0 {
        (ri, moved)
    } else if tangent_convex(left[li], right[ri], right[cyc_prev(ri, right.len() as int)]) {
        (ri, moved)
    } else {
        adv_ri(left, right, li, cyc_prev(ri, right.len() as int), (fuel - 1) as nat, true)
    }
}

/// One round advances the left pointer, then the right pointer; rounds repeat
/// until a round leaves the right pointer in place, or the round budget is
/// exhausted (which on convex sub-hulls it never is).
pub open spec fn tangent_loop(left: Seq<Point>, right: Seq<Point>, li: int, ri: int, fuel: nat) -> (
    int,
    int,
)
    decreases fuel,
{
    if fuel == 0 {
        (li, ri)
    } else {
        let li2 = adv_li(left, right, li, ri, left.len());
        let adv = adv_ri(left, right, li2, ri, right.len(), false);
        if adv.1 {
            tangent_loop(left, right, li2, adv.0, (fuel - 1) as nat)
        } else {
            (li2, adv.0)
        }
    }
}

/// The round budget of the tangent search: enough for the right pointer to
/// travel once around its hull.
pub open spec fn tangent_fuel(len: nat) -> nat {
    if len > (usize::MAX - 2) as nat {
        usize::MAX as nat
    } else {
        len + 2
    }
}

/// The tangent between two hulls, found by alternately advancing each pointer
/// while the triple (advance candidate, current, other-hull anchor) is
/// non-convex.
pub open spec fn find_tangent_spec(left: Seq<Point>, right: Seq<Point>, li: int, ri: int) -> (
    int,
    int,
) {
    tangent_loop(left, right, li, ri, tangent_fuel(right.len()))
}

/// Runs one bounded pointer advance of the left pointer.
fn advance_left(left: &Vec<Point>, right: &Vec<Point>, li: usize, ri: usize) -> (r: usize)
    requires
        0 < left@.len(),
        0 < right@.len(),
        li < left@.len(),
        ri < right@.len(),
        forall|k: int| 0 <= k < left@.len() ==> valid_point(#[trigger] left@[k]),
        forall|k: int| 0 <= k < right@.len() ==> valid_point(#[trigger] right@[k]),
    ensures
        r as int == adv_li(left@, right@, li as int, ri as int, left@.len()),
        r < left@.len(),
{
    let ghost li0 = li as int;
    let mut li = li;
    let mut fuel = left.len();
    loop
        invariant_except_break
            0 < left@.len(),
            0 < right@.len(),
            li < left@.len(),
            ri < right@.len(),
            forall|k: int| 0 <= k < left@.len() ==> valid_point(#[trigger] left@[k]),
            forall|k: int| 0 <= k < right@.len() ==> valid_point(#[trigger] right@[k]),
            fuel <= left@.len(),
            adv_li(left@, right@, li as int, ri as int, fuel as nat) == adv_li(
                left@,
                right@,
                li0,
                ri as int,
                left@.len(),
            ),
        ensures
            li < left@.len(),
            li as int == adv_li(left@, right@, li0, ri as int, left@.len()),
        decreases fuel,
    {
        if fuel == 0 {
            break ;
        }
        let next = if li == left.len() - 1 {
            0
        } else {
            li + 1
        };
        if is_tangent_convex(&left[next], &left[li], &right[ri]) {
            break ;
        }
        li = next;
        fuel = fuel - 1;
    }
    li
}

/// Runs one bounded pointer advance of the right pointer, reporting whether it
/// moved.
fn advance_right(left: &Vec<Point>, right: &Vec<Point>, li: usize, ri: usize) -> (r: (usize, bool))
    requires
        0 < left@.len(),
        0 < right@.len(),
        li < left@.len(),
        ri < right@.len(),
        forall|k: int| 0 <= k < left@.len() ==> valid_point(#[trigger] left@[k]),
        forall|k: int| 0 <= k < right@.len() ==> valid_point(#[trigger] right@[k]),
    ensures
        (r.0 as int, r.1) == adv_ri(left@, right@, li as int, ri as int, right@.len(), false),
        r.0 < right@.len(),
{
    let ghost ri0 = ri as int;
    let mut ri = ri;
    let mut moved = false;
    let mut fuel = right.len();
    loop
        invariant_except_break
            0 < left@.len(),
            0 < right@.len(),
            li < left@.len(),
            ri < right@.len(),
            forall|k: int| 0 <= k < left@.len() ==> valid_point(#[trigger] left@[k]),
            forall|k: int| 0 <= k < right@.len() ==> valid_point(#[trigger] right@[k]),
            fuel <= right@.len(),
            adv_ri(left@, right@, li as int, ri as int, fuel as nat, moved) == adv_ri(
                left@,
                right@,
                li as int,
                ri0,
                right@.len(),
                false,
            ),
        ensures
            ri < right@.len(),
            (ri as int, moved) == adv_ri(left@, right@, li as int, ri0, right@.len(), false),
        decreases fuel,
    {
        if fuel == 0 {
            break ;
        }
        let prev = if ri == 0 {
            right.len() - 1
        } else {
            ri - 1
        };
        if is_tangent_convex(&left[li], &right[ri], &right[prev]) {
            break ;
        }
        ri = prev;
        moved = true;
        fuel = fuel - 1;
    }
    (ri, moved)
}

/// Finds the tangent between two non-empty hulls, starting from the given
/// anchor vertices.
pub fn find_tangent(left: &Vec<Point>, right: &Vec<Point>, li: usize, ri: usize) -> (r: (
    usize,
    usize,
))
    requires
        0 < left@.len(),
        0 < right@.len(),
        li < left@.len(),
        ri < right@.len(),
        forall|k: int| 0 <= k < left@.len() ==> valid_point(#[trigger] left@[k]),
        forall|k: int| 0 <= k < right@.len() ==> valid_point(#[trigger] right@[k]),
    ensures
        (r.0 as int, r.1 as int) == find_tangent_spec(left@, right@, li as int, ri as int),
        r.0 < left@.len(),
        r.1 < right@.len(),
{
    let ghost li0 = li as int;
    let ghost ri0 = ri as int;
    let mut li = li;
    let mut ri = ri;
    let mut fuel = if right.len() > usize::MAX - 2 {
        usize::MAX
    } else {
        right.len() + 2
    };
    loop
        invariant_except_break
            0 < left@.len(),
            0 < right@.len(),
            li < left@.len(),
            ri < right@.len(),
            forall|k: int| 0 <= k < left@.len() ==> valid_point(#[trigger] left@[k]),
            forall|k: int| 0 <= k < right@.len() ==> valid_point(#[trigger] right@[k]),
            tangent_loop(left@, right@, li as int, ri as int, fuel as nat) == tangent_loop(
                left@,
                right@,
                li0,
                ri0,
                tangent_fuel(right@.len()),
            ),
        ensures
            li < left@.len(),
            ri < right@.len(),
            (li as int, ri as int) == find_tangent_spec(left@, right@, li0, ri0),
        decreases fuel,
    {
        if fuel == 0 {
            break ;
        }
        let li2 = advance_left(left, right, li, ri);
        let adv = advance_right(left, right, li2, ri);
        li = li2;
        ri = adv.0;
        if !adv.1 {
            break ;
        }
        fuel = fuel - 1;
    }
    (li, ri)
}

/// The cyclic index range from `i` to `j` (inclusive) over a hull of length
/// `l`, wrapping past the end when `i > j`.
pub open spec fn cyclic_range_spec(i: int, j: int, l: int) -> Seq<int> {
    if i > j {
        Seq::new((l - i) as nat, |k: int| i + k) + Seq::new((j + 1) as nat, |k: int| k)
    } else {
        Seq::new((j - i + 1) as nat, |k: int| i + k)
    }
}

/// The indices of a hull's arc between two vertices, wrapping around the end
/// of the vertex array when the first index exceeds the second.
pub fn overflowing_range(i: usize, j: usize, l: usize) -> (r: Vec<usize>)
    requires
        i < l,
        j < l,
    ensures
        r@.len() == cyclic_range_spec(i as int, j as int, l as int).len(),
        forall|k: int|
            0 <= k < r@.len() ==> r@[k] as int == cyclic_range_spec(i as int, j as int, l as int)[k],
        forall|k: int| 0 <= k < r@.len() ==> #[trigger] r@[k] < l,
{
    let mut r: Vec<usize> = Vec::new();
    if i > j {
        let mut k: usize = i;
        while k < l
            invariant
                i <= k <= l,
                i > j,
                r@.len() == k - i,
                forall|t: int| 0 <= t < r@.len() ==> #[trigger] r@[t] as int == i + t,
                forall|t: int| 0 <= t < r@.len() ==> #[trigger] r@[t] < l,
            decreases l - k,
        {
            r.push(k);
            k = k + 1;
        }
        let mut k2: usize = 0;
        while k2 <= j
            invariant
                i > j,
                j < l,
                i < l,
                0 <= k2 <= j + 1,
                r@.len() == (l - i) + k2,
                forall|t: int| 0 <= t < l - i ==> #[trigger] r@[t] as int == i + t,
                forall|t: int| l - i <= t < r@.len() ==> #[trigger] r@[t] as int == t - (l - i),
                forall|t: int| 0 <= t < r@.len() ==> #[trigger] r@[t] < l,
            decreases j + 1 - k2,
        {
            r.push(k2);
            k2 = k2 + 1;
        }
    } else {
        let mut k: usize = i;
        while k <= j
            invariant
                i <= k <= j + 1,
                j < l,
                r@.len() == k - i,
                forall|t: int| 0 <= t < r@.len() ==> #[trigger] r@[t] as int == i + t,
                forall|t: int| 0 <= t < r@.len() ==> #[trigger] r@[t] < l,
            decreases j + 1 - k,
        {
            r.push(k);
            k = k + 1;
        }
    }
    r
}

/// The points of a hull's arc between two vertices, in cyclic order.
pub open spec fn cyclic_slice(s: Seq<Point>, i: int, j: int) -> Seq<Point> {
    if i > j {
        s.subrange(i, s.len() as int) + s.subrange(0, j + 1)
    } else {
        s.subrange(i, j + 1)
    }
}

/// Gathers the points of an arc, reading the indices `overflowing_range`
/// yields.
fn gather_cyclic(hull: &Vec<Point>, i: usize, j: usize) -> (r: Vec<Point>)
    requires
        i < hull@.len(),
        j < hull@.len(),
    ensures
        r@ == cyclic_slice(hull@, i as int, j as int),
{
    let idxs = overflowing_range(i, j, hull.len());
    let mut r: Vec<Point> = Vec::new();
    let mut t: usize = 0;
    while t < idxs.len()
        invariant
            0 <= t <= idxs@.len(),
            forall|k: int| 0 <= k < idxs@.len() ==> #[trigger] idxs@[k] < hull@.len(),
            r@.len() == t,
            forall|k: int| 0 <= k < t ==> #[trigger] r@[k] == hull@[idxs@[k] as int],
        decreases idxs@.len() - t,
    {
        r.push(hull[idxs[t]]);
        t = t + 1;
    }
    proof {
        let target = cyclic_slice(hull@, i as int, j as int);
        let cr = cyclic_range_spec(i as int, j as int, hull@.len() as int);
        assert forall|k: int| 0 <= k < r@.len() implies r@[k] == target[k] by {
            assert(idxs@[k] as int == cr[k]);
        }
        assert(r@ =~= target);
    }
    r
}

fn is_tangent_convex(a: &Point, b: &Point, c: &Point) -> (r: bool)
    requires
        valid_point(*a),
        valid_point(*b),
        valid_point(*c),
    ensures
        r == tangent_convex(*a, *b, *c),
{
    rotation(a, b, c) < 0
}


/// What a popped frame still has to do: recurse left, recurse right, or merge
/// the two sub-hulls.
#[derive(Copy, Clone, Debug, PartialEq, Eq, Structural)]
pub enum StackState {
    LeftDivide,
    RightDivide,
    Conquer,
}

/// A scratch copy of the points, the sub-hulls accumulated so far, and the
/// explicit recursion stack.
#[derive(Clone, Debug)]
pub struct State {
    pub points: Vec<Point>,
    pub result: Vec<Vec<Point>>,
    pub stack: Vec<(IndexBorders, StackState)>,
}

/// What the most recent step accomplished, carrying the hulls and tangents
/// involved.
pub enum Action {
    NoAction,
    Divide((HorBorders, i64)),
    Conquer((Vec<Point>, Vec<Point>, Pair, Pair)),
    PrimitiveSolve(Vec<Point>),
}

/// Mathematical model of a hull action, with hulls as sequences.
pub enum ActionModel {
    NoAction,
    Divide((HorBorders, i64)),
    Conquer((Seq<Point>, Seq<Point>, Pair, Pair)),
    PrimitiveSolve(Seq<Point>),
}

/// Mathematical model of a divide-and-conquer hull state.
pub struct HullModel {
    pub points: Seq<Point>,
    pub result: Seq<Seq<Point>>,
    pub stack: Seq<(IndexBorders, StackState)>,
}

pub open spec fn act_model_spec(a: Action) -> ActionModel {
    match a {
        Action::NoAction => ActionModel::NoAction,
        Action::Divide((hb, x)) => ActionModel::Divide((hb, x)),
        Action::Conquer((left, right, t1, t2)) => ActionModel::Conquer((left@, right@, t1, t2)),
        Action::PrimitiveSolve(h) => ActionModel::PrimitiveSolve(h@),
    }
}

/// How many sub-hulls a frame consumes when it is processed.
pub open spec fn frame_needed(s: StackState) -> int {
    match s {
        StackState::LeftDivide => 0,
        StackState::RightDivide => 1,
        StackState::Conquer => 2,
    }
}

/// Net change of the sub-hull count once a frame's whole scope completes.
pub open spec fn frame_net(s: StackState) -> int {
    match s {
        StackState::LeftDivide => 1,
        StackState::RightDivide => 0,
        StackState::Conquer => -1,
    }
}

/// Sum of `frame_net` over the frames above position `from` (inclusive).
pub open spec fn net_sum(stack: Seq<(IndexBorders, StackState)>, from: int) -> int
    decreases stack.len() - from,
{
    if from < 0 || from >= stack.len() {
        0
    } else {
        frame_net(stack[from].1) + net_sum(stack, from + 1)
    }
}

proof fn lemma_net_sum_push(
    stack: Seq<(IndexBorders, StackState)>,
    f: (IndexBorders, StackState),
    from: int,
)
    requires
        0 <= from <= stack.len(),
    ensures
        net_sum(stack.push(f), from) == net_sum(stack, from) + frame_net(f.1),
    decreases stack.len() - from,
{
    if from == stack.len() {
        assert(net_sum(stack.push(f), from) == frame_net(f.1) + net_sum(stack.push(f), from + 1));
    } else {
        lemma_net_sum_push(stack, f, from + 1);
        assert(stack.push(f)[from] == stack[from]);
    }
}

pub open spec fn hull_counts_ok(m: HullModel) -> bool {
    forall|i: int|
        0 <= i < m.stack.len() ==> frame_needed(#[trigger] m.stack[i].1) <= m.result.len()
            + net_sum(m.stack, i + 1)
}

pub open spec fn hull_wf(m: HullModel) -> bool {
    &&& valid_point_seq(m.points)
    &&& forall|i: int|
        0 <= i < m.stack.len() ==> (#[trigger] m.stack[i]).0.l < m.stack[i].0.r <= m.points.len()
    &&& hull_counts_ok(m)
    &&& forall|i: int, k: int|
        0 <= i < m.result.len() && 0 <= k < m.result[i].len() ==> valid_point(
            #[trigger] m.result[i][k],
        )
}

/// Number of steps a divide frame over `n` points takes to complete.
pub open spec fn whd(n: nat) -> nat
    decreases n,
{
    if n <= 5 {
        1
    } else {
        3 + whd((n / 2) as nat) + whd((n - n / 2) as nat)
    }
}

pub open spec fn frame_weight(f: (IndexBorders, StackState)) -> nat {
    let n = (f.0.r - f.0.l) as nat;
    match f.1 {
        StackState::LeftDivide => whd(n),
        StackState::RightDivide => 2 + whd((n - n / 2) as nat),
        StackState::Conquer => 1,
    }
}

/// Total number of steps still to run.
pub open spec fn stack_weight(stack: Seq<(IndexBorders, StackState)>) -> nat
    decreases stack.len(),
{
    if stack.len() == 0 {
        0nat
    } else {
        stack_weight(stack.drop_last()) + frame_weight(stack.last())
    }
}

proof fn lemma_stack_weight_push(
    stack: Seq<(IndexBorders, StackState)>,
    f: (IndexBorders, StackState),
)
    ensures
        stack_weight(stack.push(f)) == stack_weight(stack) + frame_weight(f),
{
    assert(stack.push(f).drop_last() =~= stack);
    assert(stack.push(f).last() == f);
}

/// The initial model: points sorted by x, one frame covering the whole range
/// (none at all for an empty input, which is therefore final at once).
pub open spec fn hull_first(points: Seq<Point>) -> HullModel {
    HullModel {
        points: sort_spec(PointOrd::XY, points),
        result: Seq::empty(),
        stack: if points.len() == 0 {
            Seq::empty()
        } else {
            seq![(IndexBorders { l: 0, r: points.len() as usize }, StackState::LeftDivide)]
        },
    }
}

/// The transition function of the divide-and-conquer hull stepper.
///
/// A `LeftDivide` frame over at most five points is solved by the brute-force
/// hull; over more it splits. A `Conquer` frame pops the two sub-hulls, finds
/// the two tangents between them starting from the rightmost vertex of the
/// left hull and the leftmost vertex of the right hull, and concatenates the
/// two arcs between the tangent vertices. A conquer whose sub-hulls are not
/// both non-empty (possible only for ranges below two points, which no
/// conquer ever covers) degenerates to plain concatenation.
pub open spec fn hull_next(m: HullModel) -> (HullModel, ActionModel) {
    if m.stack.len() == 0 {
        (m, ActionModel::NoAction)
    } else {
        let frame = m.stack.last();
        let borders = frame.0;
        let stack0 = m.stack.drop_last();
        match frame.1 {
            StackState::LeftDivide => {
                if borders.r - borders.l <= 5 {
                    let h = bf_hull(m.points, borders.l as int, borders.r as int);
                    (
                        HullModel { result: m.result.push(h), stack: stack0, ..m },
                        ActionModel::PrimitiveSolve(h),
                    )
                } else {
                    let lb = ib_left(borders);
                    (
                        HullModel {
                            stack: stack0.push((borders, StackState::RightDivide)).push(
                                (lb, StackState::LeftDivide),
                            ),
                            ..m
                        },
                        ActionModel::Divide(
                            (hb_from_indexes(m.points, lb), m.points[borders.r - 1].x),
                        ),
                    )
                }
            },
            StackState::RightDivide => {
                let rb = ib_right(borders);
                (
                    HullModel {
                        stack: stack0.push((borders, StackState::Conquer)).push(
                            (rb, StackState::LeftDivide),
                        ),
                        ..m
                    },
                    ActionModel::Divide(
                        (hb_from_indexes(m.points, rb), m.points[borders.l as int].x),
                    ),
                )
            },
            StackState::Conquer => {
                let right = m.result.last();
                let left = m.result[m.result.len() - 2];
                let result0 = m.result.drop_last().drop_last();
                if left.len() == 0 || right.len() == 0 {
                    (
                        HullModel { result: result0.push(left + right), stack: stack0, ..m },
                        ActionModel::Conquer((left, right, inf_pair(), inf_pair())),
                    )
                } else {
                    let li0 = argmax_x_upto(left, left.len() as int);
                    let ri0 = argmin_x_upto(right, right.len() as int);
                    let upper = find_tangent_spec(left, right, li0, ri0);
                    let lower = find_tangent_spec(right, left, ri0, li0);
                    let merged = cyclic_slice(left, upper.0, lower.1) + cyclic_slice(
                        right,
                        lower.0,
                        upper.1,
                    );
                    (
                        HullModel { result: result0.push(merged), stack: stack0, ..m },
                        ActionModel::Conquer(
                            (
                                left,
                                right,
                                Pair { a: left[upper.0], b: right[upper.1] },
                                Pair { a: left[lower.1], b: right[lower.0] },
                            ),
                        ),
                    )
                }
            },
        }
    }
}


/// An element-wise copy of a list of hulls.
fn clone_hulls(v: &Vec<Vec<Point>>) -> (r: Vec<Vec<Point>>)
    ensures
        r@.len() == v@.len(),
        forall|k: int| 0 <= k < v@.len() ==> (#[trigger] r@[k])@ == v@[k]@,
{
    let mut r: Vec<Vec<Point>> = Vec::new();
    let mut i: usize = 0;
    while i < v.len()
        invariant
            0 <= i <= v@.len(),
            r@.len() == i,
            forall|k: int| 0 <= k < i ==> (#[trigger] r@[k])@ == v@[k]@,
        decreases v@.len() - i,
    {
        r.push(clone_vec_copy(&v[i]));
        i = i + 1;
    }
    r
}

pub struct ConvexHullDivideAndConquer;

impl Algo for ConvexHullDivideAndConquer {
    type State = State;

    type Action = Action;

    type StateModel = HullModel;

    type ActionModel = ActionModel;

    open spec fn st_model(s: &State) -> HullModel {
        HullModel {
            points: s.points@,
            result: s.result@.map_values(|h: Vec<Point>| h@),
            stack: s.stack@,
        }
    }

    open spec fn act_model(a: &Action) -> ActionModel {
        act_model_spec(*a)
    }

    open spec fn wf(m: HullModel) -> bool {
        hull_wf(m)
    }

    open spec fn measure(m: HullModel) -> nat {
        stack_weight(m.stack)
    }

    open spec fn first_model(points: Seq<Point>) -> HullModel {
        hull_first(points)
    }

    open spec fn next_model(m: HullModel) -> (HullModel, ActionModel) {
        hull_next(m)
    }

    open spec fn is_final_model(m: HullModel) -> bool {
        m.stack.len() == 0
    }

    fn first_state(points: Vec<Point>) -> (s: State) {
        let sorted = sort_points(&points, &PointOrd::XY);
        proof {
            lemma_sort_spec_valid(PointOrd::XY, points@);
        }
        let n = sorted.len();
        let mut stack: Vec<(IndexBorders, StackState)> = Vec::new();
        if n > 0 {
            stack.push((IndexBorders { l: 0, r: n }, StackState::LeftDivide));
        }
        let s = State { points: sorted, result: Vec::new(), stack };
        proof {
            let m = Self::st_model(&s);
            assert(m.stack =~= hull_first(points@).stack);
            assert(m.result =~= hull_first(points@).result);
            assert forall|i: int| 0 <= i < m.stack.len() implies frame_needed(
                #[trigger] m.stack[i].1,
            ) <= m.result.len() + net_sum(m.stack, i + 1) by {
                assert(net_sum(m.stack, i + 1) == 0);
            }
        }
        s
    }

    #[verifier::rlimit(100)]
    fn next_state(state: State) -> (r: (State, Action)) {
        let State { points, mut result, mut stack } = state;
        let ghost m = HullModel {
            points: points@,
            result: result@.map_values(|h: Vec<Point>| h@),
            stack: stack@,
        };
        if stack.len() == 0 {
            return (State { points, result, stack }, Action::NoAction);
        }
        let ghost stack0 = m.stack.drop_last();
        let ghost top = m.stack.last();
        let popped = stack.pop().unwrap();
        let borders = popped.0;
        let cur = popped.1;
        proof {
            assert(stack@ =~= stack0);
            assert(m.stack =~= stack0.push(top));
            assert(m.stack[m.stack.len() - 1].0.l < m.stack[m.stack.len() - 1].0.r
                <= m.points.len());
        }
        let action = match cur {
            StackState::LeftDivide => {
                if borders.r - borders.l <= 5 {
                    let h = brute_force(&borders, &points);
                    let hcopy = clone_vec_copy(&h);
                    result.push(hcopy);
                    proof {
                        assert(result@.map_values(|hh: Vec<Point>| hh@) =~= m.result.push(h@));
                        lemma_net_sum_push(stack0, top, 0);
                        assert forall|i: int| 0 <= i < stack0.len() implies frame_needed(
                            #[trigger] stack0[i].1,
                        ) <= result@.map_values(|hh: Vec<Point>| hh@).len() + net_sum(
                            stack0,
                            i + 1,
                        ) by {
                            assert(frame_needed(m.stack[i].1) <= m.result.len() + net_sum(
                                m.stack,
                                i + 1,
                            ));
                            lemma_net_sum_push(stack0, top, i + 1);
                            assert(m.stack[i] == stack0[i]);
                        }
                        assert(stack_weight(m.stack) == stack_weight(stack0) + frame_weight(top));
                    }
                    Action::PrimitiveSolve(h)
                } else {
                    let left_borders = borders.left();
                    proof {
                        lemma_split_sizes(borders);
                        lemma_mid(borders.l as int, borders.r as int);
                    }
                    stack.push((borders, StackState::RightDivide));
                    stack.push((left_borders, StackState::LeftDivide));
                    let a = Action::Divide(
                        (HorBorders::from_indexes(&points, &left_borders), points[borders.r - 1].x),
                    );
                    proof {
                        let f1 = (borders, StackState::RightDivide);
                        let f2 = (left_borders, StackState::LeftDivide);
                        let s1 = stack0.push(f1);
                        let s2 = s1.push(f2);
                        assert(stack@ =~= s2);
                        assert forall|i: int| 0 <= i < s2.len() implies frame_needed(
                            #[trigger] s2[i].1,
                        ) <= m.result.len() + net_sum(s2, i + 1) by {
                            if i < stack0.len() {
                                assert(m.stack[i] == stack0[i]);
                                assert(s2[i] == stack0[i]);
                                assert(frame_needed(m.stack[i].1) <= m.result.len() + net_sum(
                                    m.stack,
                                    i + 1,
                                ));
                                lemma_net_sum_push(stack0, top, i + 1);
                                lemma_net_sum_push(stack0, f1, i + 1);
                                lemma_net_sum_push(s1, f2, i + 1);
                            } else if i == stack0.len() {
                                assert(s2[i] == f1);
                                lemma_net_sum_push(s1, f2, i + 1);
                                assert(net_sum(s1, i + 1) == 0);
                            } else {
                                assert(s2[i] == f2);
                                assert(net_sum(s2, i + 1) == 0);
                            }
                        }
                        let n = (borders.r - borders.l) as nat;
                        assert(whd(n) == 3 + whd((n / 2) as nat) + whd((n - n / 2) as nat));
                        assert((left_borders.r - left_borders.l) as nat == (n / 2) as nat);
                        lemma_stack_weight_push(stack0, f1);
                        lemma_stack_weight_push(s1, f2);
                        assert(stack_weight(m.stack) == stack_weight(stack0) + frame_weight(top));
                        assert(frame_weight(f1) == 2 + whd((n - n / 2) as nat));
                        assert(frame_weight(f2) == whd((n / 2) as nat));
                    }
                    a
                }
            },
            StackState::RightDivide => {
                let right_borders = borders.right();
                proof {
                    lemma_mid(borders.l as int, borders.r as int);
                }
                stack.push((borders, StackState::Conquer));
                stack.push((right_borders, StackState::LeftDivide));
                let a = Action::Divide(
                    (HorBorders::from_indexes(&points, &right_borders), points[borders.l].x),
                );
                proof {
                    let f1 = (borders, StackState::Conquer);
                    let f2 = (right_borders, StackState::LeftDivide);
                    let s1 = stack0.push(f1);
                    let s2 = s1.push(f2);
                    assert(stack@ =~= s2);
                    assert(frame_needed(m.stack[m.stack.len() - 1].1) <= m.result.len() + net_sum(
                        m.stack,
                        m.stack.len() as int,
                    ));
                    assert(net_sum(m.stack, m.stack.len() as int) == 0);
                    assert(m.result.len() >= 1);
                    assert forall|i: int| 0 <= i < s2.len() implies frame_needed(
                        #[trigger] s2[i].1,
                    ) <= m.result.len() + net_sum(s2, i + 1) by {
                        if i < stack0.len() {
                            assert(m.stack[i] == stack0[i]);
                            assert(s2[i] == stack0[i]);
                            assert(frame_needed(m.stack[i].1) <= m.result.len() + net_sum(
                                m.stack,
                                i + 1,
                            ));
                            lemma_net_sum_push(stack0, top, i + 1);
                            lemma_net_sum_push(stack0, f1, i + 1);
                            lemma_net_sum_push(s1, f2, i + 1);
                        } else if i == stack0.len() {
                            assert(s2[i] == f1);
                            lemma_net_sum_push(s1, f2, i + 1);
                            assert(net_sum(s1, i + 1) == 0);
                        } else {
                            assert(s2[i] == f2);
                            assert(net_sum(s2, i + 1) == 0);
                        }
                    }
                    let n = (borders.r - borders.l) as nat;
                    assert((right_borders.r - right_borders.l) as nat == (n - n / 2) as nat);
                    lemma_stack_weight_push(stack0, f1);
                    lemma_stack_weight_push(s1, f2);
                    assert(stack_weight(m.stack) == stack_weight(stack0) + frame_weight(top));
                    assert(frame_weight(top) == 2 + whd((n - n / 2) as nat));
                    assert(frame_weight(f1) == 1);
                    assert(frame_weight(f2) == whd((n - n / 2) as nat));
                }
                a
            },
            StackState::Conquer => {
                proof {
                    assert(frame_needed(m.stack[m.stack.len() - 1].1) <= m.result.len() + net_sum(
                        m.stack,
                        m.stack.len() as int,
                    ));
                    assert(net_sum(m.stack, m.stack.len() as int) == 0);
                    assert(m.result.len() >= 2);
                }
                let right = result.pop().unwrap();
                let left = result.pop().unwrap();
                let ghost result0 = m.result.drop_last().drop_last();
                proof {
                    assert(left@ == m.result[m.result.len() - 2]);
                    assert(right@ == m.result[m.result.len() - 1]);
                    assert(result@.map_values(|hh: Vec<Point>| hh@) =~= result0);
                    assert forall|k: int| 0 <= k < left@.len() implies valid_point(
                        #[trigger] left@[k],
                    ) by {
                        assert(valid_point(m.result[m.result.len() - 2][k]));
                    }
                    assert forall|k: int| 0 <= k < right@.len() implies valid_point(
                        #[trigger] right@[k],
                    ) by {
                        assert(valid_point(m.result[m.result.len() - 1][k]));
                    }
                }
                let a;
                if left.len() == 0 || right.len() == 0 {
                    let mut merged = clone_vec_copy(&left);
                    let mut rcopy = clone_vec_copy(&right);
                    merged.append(&mut rcopy);
                    result.push(merged);
                    a = Action::Conquer((left, right, Pair::inf(), Pair::inf()));
                } else {
                    let li0 = find_max_x(&left);
                    let ri0 = find_min_x(&right);
                    let upper = find_tangent(&left, &right, li0, ri0);
                    let lower = find_tangent(&right, &left, ri0, li0);
                    let mut merged = gather_cyclic(&left, upper.0, lower.1);
                    let mut arc_r = gather_cyclic(&right, lower.0, upper.1);
                    merged.append(&mut arc_r);
                    let t1 = Pair::new(left[upper.0], right[upper.1]);
                    let t2 = Pair::new(left[lower.1], right[lower.0]);
                    result.push(merged);
                    a = Action::Conquer((left, right, t1, t2));
                }
                proof {
                    let newres = result@.map_values(|hh: Vec<Point>| hh@);
                    assert(newres =~= hull_next(m).0.result);
                    lemma_net_sum_push(stack0, top, 0);
                    assert forall|i: int| 0 <= i < stack0.len() implies frame_needed(
                        #[trigger] stack0[i].1,
                    ) <= newres.len() + net_sum(stack0, i + 1) by {
                        assert(m.stack[i] == stack0[i]);
                        assert(frame_needed(m.stack[i].1) <= m.result.len() + net_sum(
                            m.stack,
                            i + 1,
                        ));
                        lemma_net_sum_push(stack0, top, i + 1);
                    }
                    assert forall|i: int, k: int|
                        0 <= i < newres.len() && 0 <= k < newres[i].len() implies valid_point(
                        #[trigger] newres[i][k],
                    ) by {
                        if i < result0.len() {
                            assert(newres[i] == m.result[i]);
                            assert(valid_point(m.result[i][k]));
                        } else {
                            let lseq = m.result[m.result.len() - 2];
                            let rseq = m.result[m.result.len() - 1];
                            assert(newres[i] == hull_next(m).0.result.last());
                            if lseq.len() == 0 || rseq.len() == 0 {
                                assert(newres[i] == lseq + rseq);
                                if k < lseq.len() {
                                    assert(valid_point(lseq[k]));
                                } else {
                                    assert(valid_point(rseq[k - lseq.len()]));
                                }
                            } else {
                                let li0s = argmax_x_upto(lseq, lseq.len() as int);
                                let ri0s = argmin_x_upto(rseq, rseq.len() as int);
                                let upp = find_tangent_spec(lseq, rseq, li0s, ri0s);
                                let low = find_tangent_spec(rseq, lseq, ri0s, li0s);
                                let arcl = cyclic_slice(lseq, upp.0, low.1);
                                let arcr = cyclic_slice(rseq, low.0, upp.1);
                                assert(newres[i] == arcl + arcr);
                                if k < arcl.len() {
                                    assert(lseq.contains(arcl[k])) by {
                                        lemma_cyclic_slice_elems(lseq, upp.0, low.1);
                                    }
                                    let t = choose|t: int|
                                        0 <= t < lseq.len() && lseq[t] == arcl[k];
                                    assert(valid_point(lseq[t]));
                                } else {
                                    assert(rseq.contains(arcr[k - arcl.len()])) by {
                                        lemma_cyclic_slice_elems(rseq, low.0, upp.1);
                                    }
                                    let t = choose|t: int|
                                        0 <= t < rseq.len() && rseq[t] == arcr[k - arcl.len()];
                                    assert(valid_point(rseq[t]));
                                }
                            }
                        }
                    }
                    assert(stack_weight(m.stack) == stack_weight(stack0) + frame_weight(top));
                    assert(frame_weight(top) == 1);
                }
                a
            },
        };
        (State { points, result, stack }, action)
    }

    fn is_final(state: &State) -> (b: bool) {
        state.stack.len() == 0
    }

    fn clone_state(state: &State) -> (s: State) {
        let r = State {
            points: clone_vec_copy(&state.points),
            result: clone_hulls(&state.result),
            stack: clone_vec_copy(&state.stack),
        };
        proof {
            assert(Self::st_model(&r).result =~= Self::st_model(state).result);
        }
        r
    }
}

proof fn lemma_adv_li_range(left: Seq<Point>, right: Seq<Point>, li: int, ri: int, fuel: nat)
    requires
        0 <= li < left.len(),
    ensures
        0 <= adv_li(left, right, li, ri, fuel) < left.len(),
    decreases fuel,
{
    if fuel > 0 && !tangent_convex(left[cyc_next(li, left.len() as int)], left[li], right[ri]) {
        lemma_adv_li_range(left, right, cyc_next(li, left.len() as int), ri, (fuel - 1) as nat);
    }
}

proof fn lemma_adv_ri_range(
    left: Seq<Point>,
    right: Seq<Point>,
    li: int,
    ri: int,
    fuel: nat,
    moved: bool,
)
    requires
        0 <= ri < right.len(),
    ensures
        0 <= adv_ri(left, right, li, ri, fuel, moved).0 < right.len(),
    decreases fuel,
{
    if fuel > 0 && !tangent_convex(left[li], right[ri], right[cyc_prev(ri, right.len() as int)]) {
        lemma_adv_ri_range(
            left,
            right,
            li,
            cyc_prev(ri, right.len() as int),
            (fuel - 1) as nat,
            true,
        );
    }
}

proof fn lemma_tangent_loop_range(left: Seq<Point>, right: Seq<Point>, li: int, ri: int, fuel: nat)
    requires
        0 <= li < left.len(),
        0 <= ri < right.len(),
    ensures
        0 <= tangent_loop(left, right, li, ri, fuel).0 < left.len(),
        0 <= tangent_loop(left, right, li, ri, fuel).1 < right.len(),
    decreases fuel,
{
    if fuel > 0 {
        let li2 = adv_li(left, right, li, ri, left.len());
        lemma_adv_li_range(left, right, li, ri, left.len());
        let adv = adv_ri(left, right, li2, ri, right.len(), false);
        lemma_adv_ri_range(left, right, li2, ri, right.len(), false);
        if adv.1 {
            lemma_tangent_loop_range(left, right, li2, adv.0, (fuel - 1) as nat);
        }
    }
}

/// The tangent search keeps both pointers on their hulls.
pub proof fn lemma_find_tangent_range(left: Seq<Point>, right: Seq<Point>, li: int, ri: int)
    requires
        0 <= li < left.len(),
        0 <= ri < right.len(),
    ensures
        0 <= find_tangent_spec(left, right, li, ri).0 < left.len(),
        0 <= find_tangent_spec(left, right, li, ri).1 < right.len(),
{
    lemma_tangent_loop_range(left, right, li, ri, tangent_fuel(right.len()));
}

/// Every point of an arc is a vertex of its hull.
proof fn lemma_cyclic_slice_elems(s: Seq<Point>, i: int, j: int)
    requires
        0 <= i < s.len(),
        0 <= j < s.len(),
    ensures
        forall|k: int|
            0 <= k < cyclic_slice(s, i, j).len() ==> s.contains(#[trigger] cyclic_slice(s, i, j)[k]),
{
    let c = cyclic_slice(s, i, j);
    assert forall|k: int| 0 <= k < c.len() implies s.contains(#[trigger] c[k]) by {
        if i > j {
            if k < s.len() - i {
                assert(c[k] == s[i + k]);
            } else {
                assert(c[k] == s[k - (s.len() - i)]);
            }
        } else {
            assert(c[k] == s[i + k]);
        }
    }
}


/// An empty input is final at once, with an empty result.
pub proof fn lemma_hull_empty_input(points: Seq<Point>)
    requires
        points.len() == 0,
    ensures
        hull_first(points).stack.len() == 0,
        hull_first(points).result.len() == 0,
{
}

/// A one-point input terminates after a single brute-force step; its trivial
/// hull is empty, since no pair of points spans an edge.
pub proof fn lemma_hull_one_point(points: Seq<Point>)
    requires
        points.len() == 1,
        valid_point_seq(points),
    ensures
        hull_next(hull_first(points)).0.stack.len() == 0,
        hull_next(hull_first(points)).0.result == seq![Seq::<Point>::empty()],
{
    let m = hull_first(points);
    lemma_sort_spec_multiset(PointOrd::XY, points);
    assert(m.points.len() == 1);
    assert(m.stack == seq![(IndexBorders { l: 0, r: 1 }, StackState::LeftDivide)]);
    let pts = m.points;
    assert(bfh_inner(pts, 0, 1, 0, 1, Seq::empty()) == Seq::<Point>::empty());
    assert(bfh_rows(pts, 0, 1, 1, Seq::empty()) == Seq::<Point>::empty());
    assert(bfh_rows(pts, 0, 1, 0, Seq::empty()) == Seq::<Point>::empty());
    assert(bf_hull(pts, 0, 1) == Seq::<Point>::empty());
    assert(m.stack.drop_last() =~= Seq::<(IndexBorders, StackState)>::empty());
    assert(hull_next(m).0.result =~= seq![Seq::<Point>::empty()]);
}

/// Every vertex of every hull a state holds is one of the input points; the
/// state's working points are a permutation of the input.
/// Every point of the brute-force hull of a range is a point of the array.
pub proof fn lemma_bf_hull_subset(pts: Seq<Point>, l: int, r: int)
    requires
        0 <= l,
        r <= pts.len(),
        forall|k: int| 0 <= k < pts.len() ==> valid_point(#[trigger] pts[k]),
    ensures
        forall|k: int|
            0 <= k < bf_hull(pts, l, r).len() ==> pts.contains(#[trigger] bf_hull(pts, l, r)[k]),
{
    let cands = bfh_candidates(pts, l, r);
    lemma_bfh_candidates_subset(pts, l, r);
    let h = bf_hull(pts, l, r);
    assert forall|k: int| 0 <= k < h.len() implies pts.contains(#[trigger] h[k]) by {
        if cands.len() > 0 {
            assert forall|q: int| 0 <= q < cands.len() implies valid_point(#[trigger] cands[q]) by {
                assert(cands.contains(cands[q]));
                assert(in_range(pts, l, r, cands[q]));
                let w = choose|w: int| l <= w < r && pts[w] == cands[q];
            }
            let o = PointOrd::Centroid(
                sum_x(cands) as i128,
                sum_y(cands) as i128,
                cands.len() as i128,
            );
            lemma_sort_spec_valid(o, cands);
            assert(cands.contains(h[k]));
            assert(in_range(pts, l, r, h[k]));
            let w = choose|w: int| l <= w < r && pts[w] == h[k];
        }
    }
}

proof fn lemma_merge_contents(mpoints: Seq<Point>, left: Seq<Point>, right: Seq<Point>)
    requires
        forall|k: int| 0 <= k < left.len() ==> mpoints.contains(#[trigger] left[k]),
        forall|k: int| 0 <= k < right.len() ==> mpoints.contains(#[trigger] right[k]),
        left.len() > 0,
        right.len() > 0,
    ensures
        ({
            let li0 = argmax_x_upto(left, left.len() as int);
            let ri0 = argmin_x_upto(right, right.len() as int);
            let upper = find_tangent_spec(left, right, li0, ri0);
            let lower = find_tangent_spec(right, left, ri0, li0);
            let merged = cyclic_slice(left, upper.0, lower.1) + cyclic_slice(
                right,
                lower.0,
                upper.1,
            );
            forall|k: int| 0 <= k < merged.len() ==> mpoints.contains(#[trigger] merged[k])
        }),
{
    let li0 = argmax_x_upto(left, left.len() as int);
    let ri0 = argmin_x_upto(right, right.len() as int);
    lemma_arg_x_in_range(left, left.len() as int);
    lemma_arg_x_in_range(right, right.len() as int);
    let upper = find_tangent_spec(left, right, li0, ri0);
    let lower = find_tangent_spec(right, left, ri0, li0);
    lemma_find_tangent_range(left, right, li0, ri0);
    lemma_find_tangent_range(right, left, ri0, li0);
    let arcl = cyclic_slice(left, upper.0, lower.1);
    let arcr = cyclic_slice(right, lower.0, upper.1);
    lemma_cyclic_slice_elems(left, upper.0, lower.1);
    lemma_cyclic_slice_elems(right, lower.0, upper.1);
    let merged = arcl + arcr;
    assert forall|k: int| 0 <= k < merged.len() implies mpoints.contains(#[trigger] merged[k]) by {
        if k < arcl.len() {
            assert(left.contains(arcl[k]));
            let w = choose|w: int| 0 <= w < left.len() && left[w] == arcl[k];
            assert(mpoints.contains(left[w]));
        } else {
            assert(right.contains(arcr[k - arcl.len()]));
            let w = choose|w: int| 0 <= w < right.len() && right[w] == arcr[k - arcl.len()];
            assert(mpoints.contains(right[w]));
        }
    }
}

proof fn lemma_hull_step_contents(m: HullModel)
    requires
        hull_wf(m),
        forall|k: int| 0 <= k < m.points.len() ==> valid_point(#[trigger] m.points[k]),
        forall|i: int|
            0 <= i < m.stack.len() ==> (#[trigger] m.stack[i]).0.l <= m.stack[i].0.r
                <= m.points.len(),
        forall|h: int, k: int|
            0 <= h < m.result.len() && 0 <= k < m.result[h].len() ==> m.points.contains(
                #[trigger] m.result[h][k],
            ),
    ensures
        hull_next(m).0.points == m.points,
        forall|i: int|
            0 <= i < hull_next(m).0.stack.len() ==> (#[trigger] hull_next(m).0.stack[i]).0.l
                <= hull_next(m).0.stack[i].0.r <= m.points.len(),
        forall|h: int, k: int|
            0 <= h < hull_next(m).0.result.len() && 0 <= k < hull_next(m).0.result[h].len()
                ==> m.points.contains(#[trigger] hull_next(m).0.result[h][k]),
{
    if m.stack.len() == 0 {
    } else {
        let frame = m.stack.last();
        let borders = frame.0;
        let stack0 = m.stack.drop_last();
        let cur = hull_next(m).0;
        assert(frame == m.stack[m.stack.len() - 1]);
        assert(forall|i: int| 0 <= i < stack0.len() ==> #[trigger] stack0[i] == m.stack[i]);
        match frame.1 {
            StackState::LeftDivide => {
                if borders.r - borders.l <= 5 {
                    let h = bf_hull(m.points, borders.l as int, borders.r as int);
                    lemma_bf_hull_subset(m.points, borders.l as int, borders.r as int);
                    assert forall|h2: int, k: int|
                        0 <= h2 < cur.result.len() && 0 <= k < cur.result[h2].len()
                            implies m.points.contains(#[trigger] cur.result[h2][k]) by {
                        if h2 < m.result.len() {
                            assert(cur.result[h2] == m.result[h2]);
                        } else {
                            assert(cur.result[h2] == h);
                        }
                    }
                } else {
                    lemma_mid(borders.l as int, borders.r as int);
                }
            },
            StackState::RightDivide => {
                lemma_mid(borders.l as int, borders.r as int);
            },
            StackState::Conquer => {
                assert(frame_needed(m.stack[m.stack.len() - 1].1) <= m.result.len() + net_sum(
                    m.stack,
                    m.stack.len() as int,
                ));
                assert(net_sum(m.stack, m.stack.len() as int) == 0);
                assert(m.result.len() >= 2);
                let right = m.result.last();
                let left = m.result[m.result.len() - 2];
                let result0 = m.result.drop_last().drop_last();
                if left.len() > 0 && right.len() > 0 {
                    lemma_merge_contents(m.points, left, right);
                }
                assert forall|h2: int, k: int|
                    0 <= h2 < cur.result.len() && 0 <= k < cur.result[h2].len()
                        implies m.points.contains(#[trigger] cur.result[h2][k]) by {
                    if h2 < result0.len() {
                        assert(cur.result[h2] == m.result[h2]);
                        assert(m.points.contains(m.result[h2][k]));
                    } else {
                        let merged = cur.result[h2];
                        assert(merged == cur.result.last());
                        if m.result.len() >= 2 {
                            if left.len() == 0 || right.len() == 0 {
                                assert(merged == left + right);
                                if k < left.len() {
                                    assert(merged[k] == left[k]);
                                    assert(m.points.contains(left[k]));
                                } else {
                                    assert(merged[k] == right[k - left.len()]);
                                    assert(m.points.contains(right[k - left.len()]));
                                }
                            }
                        } else {
                            assert(m.points.contains(m.result[h2][k]));
                        }
                    }
                }
            },
        }
    }
}

proof fn lemma_hull_state_contents(
    points: Seq<Point>,
    states: Seq<HullModel>,
    actions: Seq<ActionModel>,
    t: int,
)
    requires
        crate::algos::is_trace::<ConvexHullDivideAndConquer>(points, states, actions),
        forall|i: int| 0 <= i < states.len() ==> hull_wf(#[trigger] states[i]),
        valid_point_seq(points),
        0 <= t < states.len(),
    ensures
        states[t].points == sort_spec(PointOrd::XY, points),
        forall|i: int|
            0 <= i < states[t].stack.len() ==> (#[trigger] states[t].stack[i]).0.l
                <= states[t].stack[i].0.r <= states[t].points.len(),
        forall|h: int, k: int|
            0 <= h < states[t].result.len() && 0 <= k < states[t].result[h].len()
                ==> states[t].points.contains(#[trigger] states[t].result[h][k]),
    decreases t,
{
    lemma_sort_spec_multiset(PointOrd::XY, points);
    lemma_sort_spec_valid(PointOrd::XY, points);
    if t == 0 {
        assert(states[0] == hull_first(points));
    } else {
        lemma_hull_state_contents(points, states, actions, t - 1);
        assert(ConvexHullDivideAndConquer::next_model(states[t - 1]) == (
            states[t],
            actions[t - 1],
        ));
        lemma_hull_step_contents(states[t - 1]);
    }
}

/// Every vertex of every hull held at the end of a complete drive is one of
/// the input points.
pub proof fn lemma_hull_trace_vertices(
    points: Seq<Point>,
    states: Seq<HullModel>,
    actions: Seq<ActionModel>,
)
    requires
        crate::algos::is_trace::<ConvexHullDivideAndConquer>(points, states, actions),
        forall|i: int| 0 <= i < states.len() ==> hull_wf(#[trigger] states[i]),
        valid_point_seq(points),
    ensures
        ({
            let last = states[states.len() - 1];
            forall|h: int, k: int|
                0 <= h < last.result.len() && 0 <= k < last.result[h].len() ==> points.contains(
                    #[trigger] last.result[h][k],
                )
        }),
{
    broadcast use vstd::seq_lib::group_to_multiset_ensures;

    let last = states[states.len() - 1];
    lemma_hull_state_contents(points, states, actions, states.len() - 1);
    lemma_sort_spec_multiset(PointOrd::XY, points);
    assert forall|h: int, k: int|
        0 <= h < last.result.len() && 0 <= k < last.result[h].len() implies points.contains(
        #[trigger] last.result[h][k],
    ) by {
        let v = last.result[h][k];
        assert(last.points.contains(v));
        assert(last.points.to_multiset().count(v) > 0);
        assert(points.to_multiset().count(v) > 0);
    }
}

} // verus!
