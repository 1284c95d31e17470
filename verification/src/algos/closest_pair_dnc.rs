//! Closest pair by divide-and-conquer, reformulated as an explicit stack of
//! frames so the recursion can be paused between any two conceptual calls.
//! Ranges of at most three points are solved by brute force; larger ranges
//! recurse on both halves and then scan a vertical strip around the midline.

use crate::algos::Algo;
use crate::common::HorBorders;
use crate::common::IndexBorders;
use crate::common::Pair;
use crate::common::Point;
use crate::common::PointOrd;
use crate::common::abs_lt_sqrt;
use crate::common::abs_lt_sqrt_exec;
use crate::common::challenge;
use crate::common::clone_vec_copy;
use crate::common::gt_sqrt;
use crate::common::gt_sqrt_exec;
use crate::common::hb_from_indexes;
use crate::common::ib_left;
use crate::common::ib_right;
use crate::common::inf_pair;
use crate::common::inf_sq;
use crate::common::lemma_mid;
use crate::common::lemma_sort_spec_multiset;
use crate::common::lemma_sort_spec_valid;
use crate::common::lemma_split_sizes;
use crate::common::lemma_valid_sq_bounded;
use crate::common::sort_points;
use crate::common::pair_sq;
use crate::common::sort_range;
use crate::common::sort_spec;
use crate::common::sq_dist;
use crate::common::strip_h;
use crate::common::strip_h_exec;
use crate::common::valid_pair;
use crate::common::valid_point;
use crate::common::valid_point_seq;
use crate::common::MAX_COORD;
use vstd::prelude::*;

verus! {

/// What a popped frame still has to do: recurse into the left half, recurse
/// into the right half, or merge the two sub-results across the saved
/// midline x.
#[derive(Copy, Clone, Debug, PartialEq, Eq, Structural)]
pub enum StackState {
    ToLeftDivide,
    ToRightDivide,
    ToConquer(i64),
}

/// A scratch copy of the points, the stack of pending sub-problems replacing
/// the native call stack, and the sub-results accumulated so far.
#[derive(Clone, Debug)]
pub struct State {
    pub points: Vec<Point>,
    pub result: Vec<Pair>,
    pub stack: Vec<(IndexBorders, StackState)>,
}

/// What the most recent step accomplished, carrying the geometric data a
/// renderer or a checker needs.
#[derive(Copy, Clone, Debug, PartialEq, Eq)]
pub enum Action {
    NoAction,
    Divide((HorBorders, i64)),
    Conquer((Pair, Pair, Pair, HorBorders, HorBorders)),
    PrimitiveSolve((HorBorders, Pair)),
}

/// Mathematical model of a divide-and-conquer closest-pair state.
pub struct CpModel {
    pub points: Seq<Point>,
    pub result: Seq<Pair>,
    pub stack: Seq<(IndexBorders, StackState)>,
}

/// Brute force over one row: the best of `best` and the pairs
/// `(pts[i], pts[j])` for `j` in `[jfrom, jto)`.
pub open spec fn bf_row(pts: Seq<Point>, i: int, jfrom: int, jto: int, best: Pair) -> Pair
    decreases jto - jfrom,
{
    if jfrom >= jto {
        best
    } else {
        bf_row(pts, i, jfrom + 1, jto, challenge(best, Pair { a: pts[i], b: pts[jfrom] }))
    }
}

/// Brute force over the rows `i` in `[ifrom, r)`, each row comparing
/// `pts[i]` against all earlier points of the range.
pub open spec fn bf_rows(pts: Seq<Point>, l: int, ifrom: int, r: int, best: Pair) -> Pair
    decreases r - ifrom,
{
    if ifrom >= r {
        best
    } else {
        bf_rows(pts, l, ifrom + 1, r, bf_row(pts, ifrom, l, ifrom, best))
    }
}

/// The closest pair of the range `[l, r)` by brute-force pairwise comparison,
/// starting from the infinite sentinel.
pub open spec fn bf_best(pts: Seq<Point>, l: int, r: int) -> Pair {
    bf_rows(pts, l, l, r, inf_pair())
}

/// Solves a range by brute-force pairwise comparison; a range with fewer than
/// two points keeps the infinite sentinel.
pub fn brute_force(borders: &IndexBorders, points: &Vec<Point>) -> (r: Pair)
    requires
        borders.l <= borders.r <= points@.len(),
        valid_point_seq(points@),
    ensures
        r == bf_best(points@, borders.l as int, borders.r as int),
        valid_pair(r),
{
    let l = borders.l;
    let rr = borders.r;
    let mut best = Pair::inf();
    let mut i: usize = l;
    while i < rr
        invariant
            l <= i <= rr <= points@.len(),
            valid_point_seq(points@),
            valid_pair(best),
            bf_best(points@, l as int, rr as int) == bf_rows(points@, l as int, i as int, rr as int, best),
        decreases rr - i,
    {
        proof {
            assert(bf_rows(points@, l as int, i as int, rr as int, best) == bf_rows(
                points@,
                l as int,
                i + 1,
                rr as int,
                bf_row(points@, i as int, l as int, i as int, best),
            ));
        }
        let mut j: usize = l;
        while j < i
            invariant
                l <= j <= i < rr <= points@.len(),
                valid_point_seq(points@),
                valid_pair(best),
                bf_rows(points@, l as int, i + 1, rr as int, bf_row(points@, i as int, j as int, i as int, best))
                    == bf_best(points@, l as int, rr as int),
            decreases i - j,
        {
            let cur = Pair::new(points[i], points[j]);
            proof {
                assert(valid_point(points@[i as int]) && valid_point(points@[j as int]));
            }
            if cur.square_len() < best.square_len() {
                best = cur;
            }
            j = j + 1;
        }
        i = i + 1;
    }
    best
}

proof fn lemma_bf_rows_extend(pts: Seq<Point>, l: int, i: int, r: int, best: Pair)
    requires
        l <= i <= r,
    ensures
        bf_rows(pts, l, i, r + 1, best) == bf_row(pts, r, l, r, bf_rows(pts, l, i, r, best)),
    decreases r - i,
{
    if i == r {
        assert(bf_rows(pts, l, r, r + 1, best) == bf_rows(pts, l, r + 1, r + 1, bf_row(
            pts,
            r,
            l,
            r,
            best,
        )));
    } else {
        let row = bf_row(pts, i, l, i, best);
        lemma_bf_rows_extend(pts, l, i + 1, r, row);
    }
}

/// The brute-force row leaves the running best in place or replaces it by a
/// pair of the row's point against an earlier one.
pub proof fn lemma_bf_row_cases(pts: Seq<Point>, i: int, j0: int, j1: int, best: Pair)
    ensures
        bf_row(pts, i, j0, j1, best) == best || exists|j: int|
            #![trigger pts[j]]
            j0 <= j < j1 && bf_row(pts, i, j0, j1, best) == (Pair { a: pts[i], b: pts[j] }),
    decreases j1 - j0,
{
    if j0 < j1 {
        let cand = Pair { a: pts[i], b: pts[j0] };
        let mid = challenge(best, cand);
        lemma_bf_row_cases(pts, i, j0 + 1, j1, mid);
        let res = bf_row(pts, i, j0, j1, best);
        assert(res == bf_row(pts, i, j0 + 1, j1, mid));
        if res == mid && mid == cand {
            assert(j0 <= j0 < j1 && res == (Pair { a: pts[i], b: pts[j0] }));
        }
    }
}

/// Extending the range by one point: the brute-force best additionally
/// considers the pairs of the new point against every earlier one.
pub proof fn lemma_bf_best_extend(pts: Seq<Point>, l: int, r: int)
    requires
        0 <= l <= r,
    ensures
        bf_best(pts, l, r + 1) == bf_row(pts, r, l, r, bf_best(pts, l, r)),
{
    lemma_bf_rows_extend(pts, l, l, r, inf_pair());
}

/// `p` is a pair of two points at distinct positions of the range `[l, r)`,
/// in either endpoint order.
pub open spec fn achieved_pair(pts: Seq<Point>, l: int, r: int, p: Pair) -> bool {
    exists|i: int, j: int|
        #![trigger pts[i], pts[j]]
        l <= j < i < r && (p == (Pair { a: pts[i], b: pts[j] }) || p == (Pair {
            a: pts[j],
            b: pts[i],
        }))
}

proof fn lemma_two_indices_count(s: Seq<Point>, i: int, j: int)
    requires
        0 <= i < s.len(),
        0 <= j < s.len(),
        i != j,
        s[i] == s[j],
    ensures
        s.to_multiset().count(s[i]) >= 2,
{
    broadcast use vstd::seq_lib::group_to_multiset_ensures;

    let v = s[i];
    let s2 = s.remove(i);
    vstd::seq_lib::to_multiset_remove(s, i);
    assert(s2.to_multiset() == s.to_multiset().remove(v));
    let j2 = if j < i {
        j
    } else {
        j - 1
    };
    assert(s2[j2] == v);
    assert(s2.contains(v));
    assert(s2.to_multiset().count(v) >= 1);
    assert(s.to_multiset().count(v) == s2.to_multiset().count(v) + 1);
}

proof fn lemma_count_two_indices(s: Seq<Point>, v: Point)
    requires
        s.to_multiset().count(v) >= 2,
    ensures
        exists|i: int, j: int|
            #![trigger s[i], s[j]]
            0 <= i < s.len() && 0 <= j < s.len() && i != j && s[i] == v && s[j] == v,
{
    broadcast use vstd::seq_lib::group_to_multiset_ensures;

    assert(s.contains(v));
    let i = choose|i: int| 0 <= i < s.len() && s[i] == v;
    let s2 = s.remove(i);
    vstd::seq_lib::to_multiset_remove(s, i);
    assert(s2.to_multiset().count(v) >= 1);
    assert(s2.contains(v));
    let j2 = choose|j2: int| 0 <= j2 < s2.len() && s2[j2] == v;
    let j = if j2 < i {
        j2
    } else {
        j2 + 1
    };
    assert(s[j] == v) by {
        if j2 < i {
            assert(s2[j2] == s[j2]);
        } else {
            assert(s2[j2] == s[j2 + 1]);
        }
    }
    assert(0 <= i < s.len() && 0 <= j < s.len() && i != j && s[i] == v && s[j] == v);
}

/// A pair achieved within a prefix is achieved within every longer prefix.
pub proof fn lemma_achieved_widen(pts: Seq<Point>, r1: int, r2: int, p: Pair)
    requires
        achieved_pair(pts, 0, r1, p),
        r1 <= r2,
    ensures
        achieved_pair(pts, 0, r2, p),
{
    let (i, j) = choose|i: int, j: int|
        #![trigger pts[i], pts[j]]
        0 <= j < i < r1 && (p == (Pair { a: pts[i], b: pts[j] }) || p == (Pair {
            a: pts[j],
            b: pts[i],
        }));
    assert(0 <= j < i < r2 && (p == (Pair { a: pts[i], b: pts[j] }) || p == (Pair {
        a: pts[j],
        b: pts[i],
    })));
}

/// A pair achieved in a sequence is achieved in every permutation of it.
pub proof fn lemma_achieved_permuted(s1: Seq<Point>, s2: Seq<Point>, p: Pair)
    requires
        s1.to_multiset() == s2.to_multiset(),
        achieved_pair(s1, 0, s1.len() as int, p),
    ensures
        achieved_pair(s2, 0, s2.len() as int, p),
{
    broadcast use vstd::seq_lib::group_to_multiset_ensures;

    let (i, j) = choose|i: int, j: int|
        #![trigger s1[i], s1[j]]
        0 <= j < i < s1.len() && (p == (Pair { a: s1[i], b: s1[j] }) || p == (Pair {
            a: s1[j],
            b: s1[i],
        }));
    if s1[i] == s1[j] {
        lemma_two_indices_count(s1, i, j);
        lemma_count_two_indices(s2, s1[i]);
        let (k, l) = choose|k: int, l: int|
            #![trigger s2[k], s2[l]]
            0 <= k < s2.len() && 0 <= l < s2.len() && k != l && s2[k] == s1[i] && s2[l] == s1[i];
        if k > l {
            assert(0 <= l < k < s2.len() && (p == (Pair { a: s2[k], b: s2[l] }) || p == (Pair {
                a: s2[l],
                b: s2[k],
            })));
        } else {
            assert(0 <= k < l < s2.len() && (p == (Pair { a: s2[l], b: s2[k] }) || p == (Pair {
                a: s2[k],
                b: s2[l],
            })));
        }
    } else {
        assert(s1.contains(s1[i]));
        assert(s1.contains(s1[j]));
        assert(s2.to_multiset().count(s1[i]) > 0);
        assert(s2.to_multiset().count(s1[j]) > 0);
        assert(s2.contains(s1[i]));
        assert(s2.contains(s1[j]));
        let k = choose|k: int| 0 <= k < s2.len() && s2[k] == s1[i];
        let l = choose|l: int| 0 <= l < s2.len() && s2[l] == s1[j];
        assert(k != l);
        if k > l {
            assert(0 <= l < k < s2.len() && (p == (Pair { a: s2[k], b: s2[l] }) || p == (Pair {
                a: s2[l],
                b: s2[k],
            })));
        } else {
            assert(0 <= k < l < s2.len() && (p == (Pair { a: s2[l], b: s2[k] }) || p == (Pair {
                a: s2[k],
                b: s2[l],
            })));
        }
    }
}

pub proof fn lemma_bf_row_props(pts: Seq<Point>, l: int, r: int, i: int, j0: int, j1: int, best: Pair)
    requires
        l <= j0,
        j1 <= i < r,
    ensures
        pair_sq(bf_row(pts, i, j0, j1, best)) <= pair_sq(best),
        forall|j: int|
            #![trigger pts[j]]
            j0 <= j < j1 ==> pair_sq(bf_row(pts, i, j0, j1, best)) <= pair_sq(
                Pair { a: pts[i], b: pts[j] },
            ),
        bf_row(pts, i, j0, j1, best) == best || achieved_pair(pts, l, r, bf_row(pts, i, j0, j1, best)),
    decreases j1 - j0,
{
    if j0 < j1 {
        let cand = Pair { a: pts[i], b: pts[j0] };
        let mid = challenge(best, cand);
        lemma_bf_row_props(pts, l, r, i, j0 + 1, j1, mid);
        let res = bf_row(pts, i, j0, j1, best);
        assert(res == bf_row(pts, i, j0 + 1, j1, mid));
        if res == mid && mid == cand {
            assert(l <= j0 < i < r && cand == (Pair { a: pts[i], b: pts[j0] }));
            assert(achieved_pair(pts, l, r, res));
        }
    }
}

proof fn lemma_bf_rows_props(pts: Seq<Point>, l: int, i0: int, r: int, best: Pair)
    requires
        l <= i0,
    ensures
        pair_sq(bf_rows(pts, l, i0, r, best)) <= pair_sq(best),
        forall|i: int, j: int|
            #![trigger pts[i], pts[j]]
            i0 <= i < r && l <= j < i ==> pair_sq(bf_rows(pts, l, i0, r, best)) <= pair_sq(
                Pair { a: pts[i], b: pts[j] },
            ),
        bf_rows(pts, l, i0, r, best) == best || achieved_pair(pts, l, r, bf_rows(pts, l, i0, r, best)),
    decreases r - i0,
{
    if i0 < r {
        let row = bf_row(pts, i0, l, i0, best);
        lemma_bf_row_props(pts, l, r, i0, l, i0, best);
        lemma_bf_rows_props(pts, l, i0 + 1, r, row);
        let res = bf_rows(pts, l, i0, r, best);
        assert(res == bf_rows(pts, l, i0 + 1, r, row));
        assert forall|i: int, j: int|
            #![trigger pts[i], pts[j]]
            i0 <= i < r && l <= j < i implies pair_sq(res) <= pair_sq(
            Pair { a: pts[i], b: pts[j] },
        ) by {
            if i == i0 {
                assert(pair_sq(row) <= pair_sq(Pair { a: pts[i], b: pts[j] }));
                assert(pair_sq(res) <= pair_sq(row));
            }
        }
    }
}

/// What the brute-force search promises: its result is no farther apart than
/// any pair of the range, and is itself a pair of the range (or the infinite
/// sentinel when the range holds fewer than two points, and never the
/// sentinel when it holds at least two).
pub proof fn lemma_bf_best_props(pts: Seq<Point>, l: int, r: int)
    requires
        0 <= l,
        r <= pts.len(),
        forall|k: int| 0 <= k < pts.len() ==> valid_point(#[trigger] pts[k]),
    ensures
        forall|i: int, j: int|
            #![trigger pts[i], pts[j]]
            l <= j < i < r ==> pair_sq(bf_best(pts, l, r)) <= sq_dist(pts[i], pts[j]),
        bf_best(pts, l, r) == inf_pair() || achieved_pair(pts, l, r, bf_best(pts, l, r)),
        r - l >= 2 ==> bf_best(pts, l, r) != inf_pair(),
{
    lemma_bf_rows_props(pts, l, l, r, inf_pair());
    let res = bf_best(pts, l, r);
    assert forall|i: int, j: int|
        #![trigger pts[i], pts[j]]
        l <= j < i < r implies pair_sq(res) <= sq_dist(pts[i], pts[j]) by {
        let cand = Pair { a: pts[i], b: pts[j] };
        assert(pair_sq(res) <= pair_sq(cand));
        assert(cand != inf_pair()) by {
            assert(valid_point(pts[j]));
        }
        assert(pair_sq(cand) == sq_dist(pts[i], pts[j]));
    }
    if r - l >= 2 {
        let cand = Pair { a: pts[l + 1], b: pts[l] };
        assert(pair_sq(res) <= pair_sq(cand));
        assert(cand != inf_pair()) by {
            assert(valid_point(pts[l]));
        }
        lemma_valid_sq_bounded(pts[l + 1], pts[l]);
        assert(pair_sq(cand) < inf_sq());
    }
}

/// Accumulator of the strip scan: the best pair so far, the strip points
/// already passed (in the y-order of the scan), and the x-extent of the
/// points considered.
pub struct StripAcc {
    pub best: Pair,
    pub bps: Seq<Point>,
    pub minx: int,
    pub maxx: int,
}

/// The backward scan of the strip points below the current one: stops as soon
/// as the y-gap exceeds the strip half-width (the square root of `s0`), which
/// is what keeps the merge step linear.
pub open spec fn strip_inner(bps: Seq<Point>, cur: Point, s0: int, best: Pair, k: int) -> Pair
    decreases k,
{
    if k <= 0 {
        best
    } else {
        let p = bps[k - 1];
        if gt_sqrt(cur.y - p.y, s0) {
            best
        } else {
            strip_inner(bps, cur, s0, challenge(best, Pair { a: cur, b: p }), k - 1)
        }
    }
}

/// One point of the conquer scan: if it lies within the strip around `midx`,
/// compare it against the preceding strip points and add it to the strip; in
/// any case extend the x-extent.
pub open spec fn strip_step(acc: StripAcc, cur: Point, midx: int, s0: int) -> StripAcc {
    let acc1 = if abs_lt_sqrt(cur.x - midx, s0) {
        StripAcc {
            best: strip_inner(acc.bps, cur, s0, acc.best, acc.bps.len() as int),
            bps: acc.bps.push(cur),
            ..acc
        }
    } else {
        acc
    };
    StripAcc {
        minx: if cur.x < acc1.minx {
            cur.x as int
        } else {
            acc1.minx
        },
        maxx: if cur.x > acc1.maxx {
            cur.x as int
        } else {
            acc1.maxx
        },
        ..acc1
    }
}

pub open spec fn strip_run(sub: Seq<Point>, midx: int, s0: int, i: int, acc: StripAcc) -> StripAcc
    decreases sub.len() - i,
{
    if i < 0 || i >= sub.len() {
        acc
    } else {
        strip_run(sub, midx, s0, i + 1, strip_step(acc, sub[i], midx, s0))
    }
}

/// The conquer scan over a y-sorted sub-range: best pair, and the leftmost and
/// rightmost x among the considered points.
pub open spec fn conquer_scan_spec(sub: Seq<Point>, midx: int, s0: int, best0: Pair) -> StripAcc {
    strip_run(
        sub,
        midx,
        s0,
        0,
        StripAcc { best: best0, bps: Seq::empty(), minx: sub[0].x as int, maxx: sub[0].x as int },
    )
}

/// Runs the strip-merge scan over `points[l..r]`.
fn conquer_scan(points: &Vec<Point>, l: usize, r: usize, midx: i64, best0: Pair) -> (res: (
    Pair,
    i64,
    i64,
))
    requires
        l < r <= points@.len(),
        valid_point_seq(points@),
        valid_pair(best0),
        -MAX_COORD <= midx <= MAX_COORD,
    ensures
        ({
            let acc = conquer_scan_spec(
                points@.subrange(l as int, r as int),
                midx as int,
                pair_sq(best0),
                best0,
            );
            &&& res.0 == acc.best
            &&& res.1 as int == acc.minx
            &&& res.2 as int == acc.maxx
            &&& valid_pair(res.0)
        }),
{
    let ghost sub = points@.subrange(l as int, r as int);
    let ghost s0_spec = pair_sq(best0);
    let s0 = best0.square_len();
    let mut best = best0;
    let mut border_points: Vec<Point> = Vec::new();
    let mut minx = points[l].x;
    let mut maxx = points[l].x;
    let ghost init = StripAcc {
        best: best0,
        bps: Seq::empty(),
        minx: sub[0].x as int,
        maxx: sub[0].x as int,
    };
    let mut i: usize = l;
    while i < r
        invariant
            l <= i <= r <= points@.len(),
            valid_point_seq(points@),
            valid_pair(best),
            -MAX_COORD <= midx <= MAX_COORD,
            sub == points@.subrange(l as int, r as int),
            s0 == s0_spec,
            forall|t: int|
                0 <= t < border_points@.len() ==> valid_point(#[trigger] border_points@[t]),
            -MAX_COORD <= minx <= MAX_COORD,
            -MAX_COORD <= maxx <= MAX_COORD,
            strip_run(sub, midx as int, s0_spec, i - l, StripAcc {
                best,
                bps: border_points@,
                minx: minx as int,
                maxx: maxx as int,
            }) == strip_run(sub, midx as int, s0_spec, 0, init),
        decreases r - i,
    {
        let cur = points[i];
        proof {
            assert(sub[i - l] == points@[i as int]);
            assert(valid_point(cur));
        }
        let ghost acc_enter = StripAcc {
            best,
            bps: border_points@,
            minx: minx as int,
            maxx: maxx as int,
        };
        if abs_lt_sqrt_exec(cur.x as i128 - midx as i128, s0) {
            let ghost bps0 = border_points@;
            let mut k = border_points.len();
            while k > 0
                invariant_except_break
                    0 <= k <= bps0.len(),
                    border_points@ == bps0,
                    valid_point(cur),
                    valid_pair(best),
                    s0 == s0_spec,
                    forall|t: int| 0 <= t < bps0.len() ==> valid_point(#[trigger] bps0[t]),
                    strip_inner(bps0, cur, s0_spec, best, k as int) == strip_inner(
                        bps0,
                        cur,
                        s0_spec,
                        acc_enter.best,
                        bps0.len() as int,
                    ),
                ensures
                    border_points@ == bps0,
                    valid_pair(best),
                    best == strip_inner(bps0, cur, s0_spec, acc_enter.best, bps0.len() as int),
                decreases k,
            {
                let p = border_points[k - 1];
                if gt_sqrt_exec(cur.y as i128 - p.y as i128, s0) {
                    proof {
                        assert(strip_inner(bps0, cur, s0_spec, best, k as int) == best);
                    }
                    break ;
                }
                let t = Pair::new(cur, p);
                if t.square_len() < best.square_len() {
                    best = t;
                }
                k = k - 1;
            }
            border_points.push(cur);
        }
        if cur.x < minx {
            minx = cur.x;
        }
        if cur.x > maxx {
            maxx = cur.x;
        }
        proof {
            let stepped = strip_step(acc_enter, cur, midx as int, s0_spec);
            assert(stepped == StripAcc {
                best,
                bps: border_points@,
                minx: minx as int,
                maxx: maxx as int,
            });
            assert(strip_run(sub, midx as int, s0_spec, i - l, acc_enter) == strip_run(
                sub,
                midx as int,
                s0_spec,
                i - l + 1,
                stepped,
            ));
        }
        i = i + 1;
    }
    (best, minx, maxx)
}

/// Re-sorting a sub-range permutes the points.
pub proof fn lemma_resort_multiset(points: Seq<Point>, b: IndexBorders)
    requires
        b.l <= b.r <= points.len(),
    ensures
        resort_y(points, b).to_multiset() == points.to_multiset(),
{
    broadcast use vstd::seq_lib::group_to_multiset_ensures;

    let sub = points.subrange(b.l as int, b.r as int);
    let sorted = sort_spec(PointOrd::YX, sub);
    lemma_sort_spec_multiset(PointOrd::YX, sub);
    let pre = points.take(b.l as int);
    let post = points.skip(b.r as int);
    vstd::seq_lib::lemma_multiset_commutative(pre, sorted);
    vstd::seq_lib::lemma_multiset_commutative(pre + sorted, post);
    vstd::seq_lib::lemma_multiset_commutative(pre, sub);
    vstd::seq_lib::lemma_multiset_commutative(pre + sub, post);
    assert(points =~= pre + sub + post);
    assert(resort_y(points, b) == pre + sorted + post);
    assert((pre + sorted).to_multiset() =~= (pre + sub).to_multiset());
    assert(resort_y(points, b).to_multiset() =~= points.to_multiset());
}

proof fn lemma_strip_inner_achieved(
    bps: Seq<Point>,
    cur: Point,
    s0: int,
    best: Pair,
    k: int,
    pts: Seq<Point>,
    hi: int,
)
    requires
        best == inf_pair() || achieved_pair(pts, 0, pts.len() as int, best),
        forall|j: int|
            0 <= j < bps.len() ==> exists|t: int| 0 <= t < hi && pts[t] == #[trigger] bps[j],
        0 <= hi < pts.len(),
        cur == pts[hi],
        k <= bps.len(),
    ensures
        strip_inner(bps, cur, s0, best, k) == inf_pair() || achieved_pair(
            pts,
            0,
            pts.len() as int,
            strip_inner(bps, cur, s0, best, k),
        ),
    decreases k,
{
    if 0 < k <= bps.len() {
        let p = bps[k - 1];
        if !gt_sqrt(cur.y - p.y, s0) {
            let cand = Pair { a: cur, b: p };
            let best2 = challenge(best, cand);
            if best2 == cand {
                let t = choose|t: int| 0 <= t < hi && pts[t] == bps[k - 1];
                assert(0 <= t < hi < pts.len() && (cand == (Pair { a: pts[hi], b: pts[t] })
                    || cand == (Pair { a: pts[t], b: pts[hi] })));
                assert(achieved_pair(pts, 0, pts.len() as int, cand));
            }
            lemma_strip_inner_achieved(bps, cur, s0, best2, k - 1, pts, hi);
        }
    }
}

/// The strip accumulator only ever holds pairs of two distinct positions of
/// the scanned points.
proof fn lemma_strip_run_achieved(
    sub: Seq<Point>,
    midx: int,
    s0: int,
    i: int,
    acc: StripAcc,
    pts: Seq<Point>,
    base: int,
)
    requires
        0 <= base,
        base + sub.len() <= pts.len(),
        forall|t: int| 0 <= t < sub.len() ==> #[trigger] sub[t] == pts[base + t],
        acc.best == inf_pair() || achieved_pair(pts, 0, pts.len() as int, acc.best),
        0 <= i,
        forall|j: int|
            0 <= j < acc.bps.len() ==> exists|t: int|
                0 <= t < base + i && pts[t] == #[trigger] acc.bps[j],
    ensures
        strip_run(sub, midx, s0, i, acc).best == inf_pair() || achieved_pair(
            pts,
            0,
            pts.len() as int,
            strip_run(sub, midx, s0, i, acc).best,
        ),
    decreases sub.len() - i,
{
    if 0 <= i < sub.len() {
        let cur = sub[i];
        assert(cur == pts[base + i]);
        let stepped = strip_step(acc, cur, midx, s0);
        if abs_lt_sqrt(cur.x - midx, s0) {
            lemma_strip_inner_achieved(
                acc.bps,
                cur,
                s0,
                acc.best,
                acc.bps.len() as int,
                pts,
                base + i,
            );
            assert forall|j: int|
                0 <= j < stepped.bps.len() implies exists|t: int|
                0 <= t < base + i + 1 && pts[t] == #[trigger] stepped.bps[j] by {
                if j < acc.bps.len() {
                    assert(stepped.bps[j] == acc.bps[j]);
                    let t = choose|t: int| 0 <= t < base + i && pts[t] == acc.bps[j];
                    assert(0 <= t < base + i + 1 && pts[t] == stepped.bps[j]);
                } else {
                    assert(stepped.bps[j] == cur);
                    assert(0 <= base + i < base + i + 1 && pts[base + i] == cur);
                }
            }
        } else {
            assert forall|j: int|
                0 <= j < stepped.bps.len() implies exists|t: int|
                0 <= t < base + i + 1 && pts[t] == #[trigger] stepped.bps[j] by {
                let t = choose|t: int| 0 <= t < base + i && pts[t] == acc.bps[j];
                assert(0 <= t < base + i + 1 && pts[t] == stepped.bps[j]);
            }
        }
        lemma_strip_run_achieved(sub, midx, s0, i + 1, stepped, pts, base);
    }
}

/// How many results a frame consumes when it is processed.
pub open spec fn frame_needed(s: StackState) -> int {
    match s {
        StackState::ToLeftDivide => 0,
        StackState::ToRightDivide => 1,
        StackState::ToConquer(_) => 2,
    }
}

/// Net change of the result count once a frame's whole scope completes.
pub open spec fn frame_net(s: StackState) -> int {
    match s {
        StackState::ToLeftDivide => 1,
        StackState::ToRightDivide => 0,
        StackState::ToConquer(_) => -1,
    }
}

/// Sum of `frame_net` over the frames above position `from` (inclusive).
pub open spec fn net_sum(stack: Seq<(IndexBorders, StackState)>, from: int) -> int
    decreases stack.len() - from,
{
    if from < 0 || from >= stack.len() {
        0
    } else {
        frame_net(stack[from].1) + net_sum(stack, from + 1)
    }
}

proof fn lemma_net_sum_push(
    stack: Seq<(IndexBorders, StackState)>,
    f: (IndexBorders, StackState),
    from: int,
)
    requires
        0 <= from <= stack.len(),
    ensures
        net_sum(stack.push(f), from) == net_sum(stack, from) + frame_net(f.1),
    decreases stack.len() - from,
{
    if from == stack.len() {
        assert(net_sum(stack.push(f), from) == frame_net(f.1) + net_sum(stack.push(f), from + 1));
    } else {
        lemma_net_sum_push(stack, f, from + 1);
        assert(stack.push(f)[from] == stack[from]);
    }
}

/// A single frame is well formed with respect to a points array of length
/// `len`: its range is non-empty and in bounds, and a saved midline is a
/// valid coordinate.
pub open spec fn frame_ok(f: (IndexBorders, StackState), len: int) -> bool {
    &&& f.0.l < f.0.r <= len
    &&& match f.1 {
        StackState::ToConquer(mx) => -MAX_COORD <= mx <= MAX_COORD,
        _ => true,
    }
}

/// Every frame can rely on enough accumulated sub-results being available by
/// the time it reaches the top of the stack.
pub open spec fn cp_counts_ok(m: CpModel) -> bool {
    forall|i: int|
        0 <= i < m.stack.len() ==> frame_needed(#[trigger] m.stack[i].1) <= m.result.len()
            + net_sum(m.stack, i + 1)
}

pub open spec fn cp_wf(m: CpModel) -> bool {
    &&& valid_point_seq(m.points)
    &&& forall|i: int| 0 <= i < m.stack.len() ==> frame_ok(#[trigger] m.stack[i], m.points.len() as int)
    &&& cp_counts_ok(m)
    &&& forall|i: int| 0 <= i < m.result.len() ==> valid_pair(#[trigger] m.result[i])
    &&& forall|i: int|
        0 <= i < m.result.len() ==> (#[trigger] m.result[i] == inf_pair() || achieved_pair(
            m.points,
            0,
            m.points.len() as int,
            m.result[i],
        ))
}

/// Number of steps a divide frame over `n` points takes to complete.
pub open spec fn wld(n: nat) -> nat
    decreases n,
{
    if n <= 3 {
        1
    } else {
        3 + wld((n / 2) as nat) + wld((n - n / 2) as nat)
    }
}

pub open spec fn frame_weight(f: (IndexBorders, StackState)) -> nat {
    let n = (f.0.r - f.0.l) as nat;
    match f.1 {
        StackState::ToLeftDivide => wld(n),
        StackState::ToRightDivide => 2 + wld((n - n / 2) as nat),
        StackState::ToConquer(_) => 1,
    }
}

/// Total number of steps still to run: the strictly decreasing measure of the
/// stepper.
pub open spec fn stack_weight(stack: Seq<(IndexBorders, StackState)>) -> nat
    decreases stack.len(),
{
    if stack.len() == 0 {
        0nat
    } else {
        stack_weight(stack.drop_last()) + frame_weight(stack.last())
    }
}

proof fn lemma_stack_weight_push(stack: Seq<(IndexBorders, StackState)>, f: (IndexBorders, StackState))
    ensures
        stack_weight(stack.push(f)) == stack_weight(stack) + frame_weight(f),
{
    assert(stack.push(f).drop_last() =~= stack);
    assert(stack.push(f).last() == f);
}

/// The points with the sub-range `[b.l, b.r)` re-sorted by (y, x), in
/// preparation for ancestor conquer steps.
pub open spec fn resort_y(points: Seq<Point>, b: IndexBorders) -> Seq<Point> {
    points.take(b.l as int) + sort_spec(PointOrd::YX, points.subrange(b.l as int, b.r as int))
        + points.skip(b.r as int)
}

/// The initial model: points sorted by x, one frame covering the whole range
/// (none at all for an empty input, which is therefore final at once).
pub open spec fn cp_first(points: Seq<Point>) -> CpModel {
    CpModel {
        points: sort_spec(PointOrd::XY, points),
        result: Seq::empty(),
        stack: if points.len() == 0 {
            Seq::empty()
        } else {
            seq![(IndexBorders { l: 0, r: points.len() as usize }, StackState::ToLeftDivide)]
        },
    }
}

/// The transition function of the divide-and-conquer closest-pair stepper.
///
/// A `ToLeftDivide` frame over at most three points is solved by brute force
/// (and its range y-sorted); over more it splits, deferring the right half
/// and then the merge. A `ToConquer` frame pops the two sub-results, re-sorts
/// the combined range by y, and scans the vertical strip of half-width equal
/// to the current best distance around the saved midline.
pub open spec fn cp_next(m: CpModel) -> (CpModel, Action) {
    if m.stack.len() == 0 {
        (m, Action::NoAction)
    } else {
        let frame = m.stack.last();
        let borders = frame.0;
        let stack0 = m.stack.drop_last();
        match frame.1 {
            StackState::ToLeftDivide => {
                if borders.r - borders.l <= 3 {
                    let best = bf_best(m.points, borders.l as int, borders.r as int);
                    let hb = hb_from_indexes(m.points, borders);
                    (
                        CpModel {
                            points: resort_y(m.points, borders),
                            result: m.result.push(best),
                            stack: stack0,
                        },
                        Action::PrimitiveSolve((hb, best)),
                    )
                } else {
                    let lb = ib_left(borders);
                    (
                        CpModel {
                            stack: stack0.push((borders, StackState::ToRightDivide)).push(
                                (lb, StackState::ToLeftDivide),
                            ),
                            ..m
                        },
                        Action::Divide(
                            (hb_from_indexes(m.points, lb), m.points[borders.r - 1].x),
                        ),
                    )
                }
            },
            StackState::ToRightDivide => {
                let rb = ib_right(borders);
                let midx = m.points[rb.l as int].x;
                (
                    CpModel {
                        stack: stack0.push((borders, StackState::ToConquer(midx))).push(
                            (rb, StackState::ToLeftDivide),
                        ),
                        ..m
                    },
                    Action::Divide(
                        (
                            HorBorders { l: midx, r: m.points[rb.r - 1].x },
                            m.points[borders.l as int].x,
                        ),
                    ),
                )
            },
            StackState::ToConquer(midx) => {
                let right_best = m.result.last();
                let left_best = m.result[m.result.len() - 2];
                let result0 = m.result.drop_last().drop_last();
                let best0 = if pair_sq(left_best) < pair_sq(right_best) {
                    left_best
                } else {
                    right_best
                };
                let points2 = resort_y(m.points, borders);
                let sub = points2.subrange(borders.l as int, borders.r as int);
                let s0 = pair_sq(best0);
                let acc = conquer_scan_spec(sub, midx as int, s0, best0);
                let h = strip_h(s0);
                (
                    CpModel { points: points2, result: result0.push(acc.best), stack: stack0 },
                    Action::Conquer(
                        (
                            acc.best,
                            left_best,
                            right_best,
                            HorBorders { l: acc.minx as i64, r: acc.maxx as i64 },
                            HorBorders { l: (midx - h) as i64, r: (midx + h) as i64 },
                        ),
                    ),
                )
            },
        }
    }
}

/// Re-sorting a sub-range keeps every point valid and the length unchanged.
pub proof fn lemma_resort_valid(points: Seq<Point>, b: IndexBorders)
    requires
        valid_point_seq(points),
        b.l <= b.r <= points.len(),
    ensures
        valid_point_seq(resort_y(points, b)),
        resort_y(points, b).len() == points.len(),
    decreases 0int,
{
    let sub = points.subrange(b.l as int, b.r as int);
    lemma_sort_spec_valid(PointOrd::YX, sub);
    let res = resort_y(points, b);
    assert forall|i: int| 0 <= i < res.len() implies valid_point(#[trigger] res[i]) by {
        if i < b.l as int {
            assert(res[i] == points[i]);
        } else if i < b.l + sort_spec(PointOrd::YX, sub).len() {
            assert(res[i] == sort_spec(PointOrd::YX, sub)[i - b.l]);
        } else {
            assert(res[i] == points.skip(b.r as int)[i - b.l - sort_spec(PointOrd::YX, sub).len()]);
        }
    }
}

pub struct ClosestPairDivideAndConquer;

impl Algo for ClosestPairDivideAndConquer {
    type State = State;

    type Action = Action;

    type StateModel = CpModel;

    type ActionModel = Action;

    open spec fn st_model(s: &State) -> CpModel {
        CpModel { points: s.points@, result: s.result@, stack: s.stack@ }
    }

    open spec fn act_model(a: &Action) -> Action {
        *a
    }

    open spec fn wf(m: CpModel) -> bool {
        cp_wf(m)
    }

    open spec fn measure(m: CpModel) -> nat {
        stack_weight(m.stack)
    }

    open spec fn first_model(points: Seq<Point>) -> CpModel {
        cp_first(points)
    }

    open spec fn next_model(m: CpModel) -> (CpModel, Action) {
        cp_next(m)
    }

    open spec fn is_final_model(m: CpModel) -> bool {
        m.stack.len() == 0
    }

    fn first_state(points: Vec<Point>) -> (s: State) {
        let sorted = sort_points(&points, &PointOrd::XY);
        proof {
            lemma_sort_spec_valid(PointOrd::XY, points@);
        }
        let n = sorted.len();
        let mut stack: Vec<(IndexBorders, StackState)> = Vec::new();
        if n > 0 {
            stack.push((IndexBorders { l: 0, r: n }, StackState::ToLeftDivide));
        }
        let s = State { points: sorted, result: Vec::new(), stack };
        proof {
            let m = Self::st_model(&s);
            assert(m.stack =~= cp_first(points@).stack);
            assert(m.result =~= cp_first(points@).result);
            assert forall|i: int| 0 <= i < m.stack.len() implies frame_needed(
                #[trigger] m.stack[i].1,
            ) <= m.result.len() + net_sum(m.stack, i + 1) by {
                assert(net_sum(m.stack, i + 1) == 0);
            }
        }
        s
    }

    fn next_state(state: State) -> (r: (State, Action)) {
        let State { mut points, mut result, mut stack } = state;
        let ghost m = CpModel { points: points@, result: result@, stack: stack@ };
        if stack.len() == 0 {
            return (State { points, result, stack }, Action::NoAction);
        }
        let ghost stack0 = m.stack.drop_last();
        let ghost top = m.stack.last();
        let popped = stack.pop().unwrap();
        let borders = popped.0;
        let cur = popped.1;
        proof {
            assert(stack@ =~= stack0);
            assert(m.stack =~= stack0.push(top));
            assert(frame_ok(m.stack[m.stack.len() - 1], m.points.len() as int));
        }
        let action = match cur {
            StackState::ToLeftDivide => {
                if borders.r - borders.l <= 3 {
                    let best = brute_force(&borders, &points);
                    let hor_borders = HorBorders::from_indexes(&points, &borders);
                    sort_range(&mut points, borders.l, borders.r, &PointOrd::YX);
                    result.push(best);
                    proof {
                        lemma_resort_valid(m.points, borders);
                        lemma_resort_multiset(m.points, borders);
                        assert(points@ == resort_y(m.points, borders));
                        lemma_bf_best_props(m.points, borders.l as int, borders.r as int);
                        assert forall|i: int|
                            0 <= i < result@.len() implies (#[trigger] result@[i] == inf_pair()
                            || achieved_pair(points@, 0, points@.len() as int, result@[i])) by {
                            if i < m.result.len() {
                                assert(result@[i] == m.result[i]);
                                if m.result[i] != inf_pair() {
                                    lemma_achieved_permuted(m.points, points@, m.result[i]);
                                }
                            } else {
                                assert(result@[i] == best);
                                if best != inf_pair() {
                                    assert(achieved_pair(
                                        m.points,
                                        borders.l as int,
                                        borders.r as int,
                                        best,
                                    ));
                                    let (ii, jj) = choose|ii: int, jj: int|
                                        #![trigger m.points[ii], m.points[jj]]
                                        borders.l <= jj < ii < borders.r && (best == (Pair {
                                            a: m.points[ii],
                                            b: m.points[jj],
                                        }) || best == (Pair { a: m.points[jj], b: m.points[ii] }));
                                    assert(0 <= jj < ii < m.points.len());
                                    assert(achieved_pair(m.points, 0, m.points.len() as int, best));
                                    lemma_achieved_permuted(m.points, points@, best);
                                }
                            }
                        }
                        lemma_net_sum_push(stack0, top, 0);
                        assert forall|i: int| 0 <= i < stack0.len() implies frame_needed(
                            #[trigger] stack0[i].1,
                        ) <= result@.len() + net_sum(stack0, i + 1) by {
                            assert(frame_needed(m.stack[i].1) <= m.result.len() + net_sum(
                                m.stack,
                                i + 1,
                            ));
                            lemma_net_sum_push(stack0, top, i + 1);
                            assert(m.stack[i] == stack0[i]);
                        }
                        assert forall|i: int| 0 <= i < stack0.len() implies frame_ok(
                            #[trigger] stack0[i],
                            points@.len() as int,
                        ) by {
                            assert(m.stack[i] == stack0[i]);
                            assert(frame_ok(m.stack[i], m.points.len() as int));
                        }
                        assert(stack_weight(m.stack) == stack_weight(stack0) + frame_weight(top));
                    }
                    Action::PrimitiveSolve((hor_borders, best))
                } else {
                    let left_borders = borders.left();
                    proof {
                        lemma_split_sizes(borders);
                        lemma_mid(borders.l as int, borders.r as int);
                    }
                    stack.push((borders, StackState::ToRightDivide));
                    stack.push((left_borders, StackState::ToLeftDivide));
                    let a = Action::Divide(
                        (HorBorders::from_indexes(&points, &left_borders), points[borders.r - 1].x),
                    );
                    proof {
                        let f1 = (borders, StackState::ToRightDivide);
                        let f2 = (left_borders, StackState::ToLeftDivide);
                        let s1 = stack0.push(f1);
                        let s2 = s1.push(f2);
                        assert(stack@ =~= s2);
                        // counts for the surviving frames
                        assert forall|i: int| 0 <= i < s2.len() implies frame_needed(
                            #[trigger] s2[i].1,
                        ) <= result@.len() + net_sum(s2, i + 1) by {
                            if i < stack0.len() {
                                assert(m.stack[i] == stack0[i]);
                                assert(s2[i] == stack0[i]);
                                assert(frame_needed(m.stack[i].1) <= m.result.len() + net_sum(
                                    m.stack,
                                    i + 1,
                                ));
                                lemma_net_sum_push(stack0, top, i + 1);
                                lemma_net_sum_push(stack0, f1, i + 1);
                                lemma_net_sum_push(s1, f2, i + 1);
                            } else if i == stack0.len() {
                                assert(s2[i] == f1);
                                lemma_net_sum_push(s1, f2, i + 1);
                                assert(net_sum(s1, i + 1) == 0);
                            } else {
                                assert(s2[i] == f2);
                                assert(net_sum(s2, i + 1) == 0);
                            }
                        }
                        assert forall|i: int| 0 <= i < s2.len() implies frame_ok(
                            #[trigger] s2[i],
                            points@.len() as int,
                        ) by {
                            if i < stack0.len() {
                                assert(m.stack[i] == stack0[i]);
                                assert(frame_ok(m.stack[i], m.points.len() as int));
                            }
                        }
                        // measure strictly decreases
                        let n = (borders.r - borders.l) as nat;
                        assert(wld(n) == 3 + wld((n / 2) as nat) + wld((n - n / 2) as nat));
                        assert((left_borders.r - left_borders.l) as nat == (n / 2) as nat);
                        lemma_stack_weight_push(stack0, f1);
                        lemma_stack_weight_push(s1, f2);
                        assert(stack_weight(m.stack) == stack_weight(stack0) + frame_weight(top));
                        assert(frame_weight(f1) == 2 + wld((n - n / 2) as nat));
                        assert(frame_weight(f2) == wld((n / 2) as nat));
                    }
                    a
                }
            },
            StackState::ToRightDivide => {
                let right_borders = borders.right();
                proof {
                    lemma_mid(borders.l as int, borders.r as int);
                }
                let midx = points[right_borders.l].x;
                stack.push((borders, StackState::ToConquer(midx)));
                stack.push((right_borders, StackState::ToLeftDivide));
                let a = Action::Divide(
                    (HorBorders::new(midx, points[right_borders.r - 1].x), points[borders.l].x),
                );
                proof {
                    let f1 = (borders, StackState::ToConquer(midx));
                    let f2 = (right_borders, StackState::ToLeftDivide);
                    let s1 = stack0.push(f1);
                    let s2 = s1.push(f2);
                    assert(stack@ =~= s2);
                    // the old top frame's guarantee: at least one result is ready
                    assert(frame_needed(m.stack[m.stack.len() - 1].1) <= m.result.len() + net_sum(
                        m.stack,
                        m.stack.len() as int,
                    ));
                    assert(net_sum(m.stack, m.stack.len() as int) == 0);
                    assert(m.result.len() >= 1);
                    assert forall|i: int| 0 <= i < s2.len() implies frame_needed(
                        #[trigger] s2[i].1,
                    ) <= result@.len() + net_sum(s2, i + 1) by {
                        if i < stack0.len() {
                            assert(m.stack[i] == stack0[i]);
                            assert(s2[i] == stack0[i]);
                            assert(frame_needed(m.stack[i].1) <= m.result.len() + net_sum(
                                m.stack,
                                i + 1,
                            ));
                            lemma_net_sum_push(stack0, top, i + 1);
                            lemma_net_sum_push(stack0, f1, i + 1);
                            lemma_net_sum_push(s1, f2, i + 1);
                        } else if i == stack0.len() {
                            assert(s2[i] == f1);
                            lemma_net_sum_push(s1, f2, i + 1);
                            assert(net_sum(s1, i + 1) == 0);
                        } else {
                            assert(s2[i] == f2);
                            assert(net_sum(s2, i + 1) == 0);
                        }
                    }
                    assert forall|i: int| 0 <= i < s2.len() implies frame_ok(
                        #[trigger] s2[i],
                        points@.len() as int,
                    ) by {
                        if i < stack0.len() {
                            assert(m.stack[i] == stack0[i]);
                            assert(frame_ok(m.stack[i], m.points.len() as int));
                        }
                    }
                    // measure strictly decreases
                    let n = (borders.r - borders.l) as nat;
                    assert((right_borders.r - right_borders.l) as nat == (n - n / 2) as nat);
                    lemma_stack_weight_push(stack0, f1);
                    lemma_stack_weight_push(s1, f2);
                    assert(stack_weight(m.stack) == stack_weight(stack0) + frame_weight(top));
                    assert(frame_weight(top) == 2 + wld((n - n / 2) as nat));
                    assert(frame_weight(f1) == 1);
                    assert(frame_weight(f2) == wld((n - n / 2) as nat));
                }
                a
            },
            StackState::ToConquer(midx) => {
                proof {
                    assert(frame_needed(m.stack[m.stack.len() - 1].1) <= m.result.len() + net_sum(
                        m.stack,
                        m.stack.len() as int,
                    ));
                    assert(net_sum(m.stack, m.stack.len() as int) == 0);
                    assert(m.result.len() >= 2);
                    assert(valid_pair(m.result[m.result.len() - 1]));
                    assert(valid_pair(m.result[m.result.len() - 2]));
                }
                let right_best = result.pop().unwrap();
                let left_best = result.pop().unwrap();
                let ghost result0 = m.result.drop_last().drop_last();
                proof {
                    assert(result@ =~= result0);
                }
                let best0 = if left_best.square_len() < right_best.square_len() {
                    left_best
                } else {
                    right_best
                };
                sort_range(&mut points, borders.l, borders.r, &PointOrd::YX);
                proof {
                    lemma_resort_valid(m.points, borders);
                    lemma_resort_multiset(m.points, borders);
                    assert(points@ == resort_y(m.points, borders));
                    if best0 != inf_pair() {
                        lemma_valid_sq_bounded(best0.a, best0.b);
                        let last_idx = m.result.len() - 1;
                        assert(best0 == m.result[last_idx] || best0 == m.result[last_idx - 1]);
                        lemma_achieved_permuted(m.points, points@, best0);
                    }
                }
                let s0 = best0.square_len();
                let scan = conquer_scan(&points, borders.l, borders.r, midx, best0);
                let best = scan.0;
                let minx = scan.1;
                let maxx = scan.2;
                result.push(best);
                let h = strip_h_exec(s0);
                let a = Action::Conquer(
                    (
                        best,
                        left_best,
                        right_best,
                        HorBorders::new(minx, maxx),
                        HorBorders::new(midx - h, midx + h),
                    ),
                );
                proof {
                    let sub = points@.subrange(borders.l as int, borders.r as int);
                    let s0g = pair_sq(best0);
                    let init = StripAcc {
                        best: best0,
                        bps: Seq::empty(),
                        minx: sub[0].x as int,
                        maxx: sub[0].x as int,
                    };
                    lemma_strip_run_achieved(sub, midx as int, s0g, 0, init, points@, borders.l as int);
                    assert forall|i: int|
                        0 <= i < result@.len() implies (#[trigger] result@[i] == inf_pair()
                        || achieved_pair(points@, 0, points@.len() as int, result@[i])) by {
                        if i < result0.len() {
                            assert(result@[i] == m.result[i]);
                            if m.result[i] != inf_pair() {
                                lemma_achieved_permuted(m.points, points@, m.result[i]);
                            }
                        } else {
                            assert(result@[i] == best);
                        }
                    }
                    lemma_net_sum_push(stack0, top, 0);
                    assert forall|i: int| 0 <= i < stack0.len() implies frame_needed(
                        #[trigger] stack0[i].1,
                    ) <= result@.len() + net_sum(stack0, i + 1) by {
                        assert(m.stack[i] == stack0[i]);
                        assert(frame_needed(m.stack[i].1) <= m.result.len() + net_sum(
                            m.stack,
                            i + 1,
                        ));
                        lemma_net_sum_push(stack0, top, i + 1);
                    }
                    assert forall|i: int| 0 <= i < stack0.len() implies frame_ok(
                        #[trigger] stack0[i],
                        points@.len() as int,
                    ) by {
                        assert(m.stack[i] == stack0[i]);
                        assert(frame_ok(m.stack[i], m.points.len() as int));
                    }
                    assert forall|i: int| 0 <= i < result@.len() implies valid_pair(
                        #[trigger] result@[i],
                    ) by {
                        if i < result0.len() {
                            assert(result0[i] == m.result[i]);
                        }
                    }
                    assert(stack_weight(m.stack) == stack_weight(stack0) + frame_weight(top));
                    assert(frame_weight(top) == 1);
                }
                a
            },
        };
        (State { points, result, stack }, action)
    }

    fn is_final(state: &State) -> (b: bool) {
        state.stack.len() == 0
    }

    fn clone_state(state: &State) -> (s: State) {
        State {
            points: clone_vec_copy(&state.points),
            result: clone_vec_copy(&state.result),
            stack: clone_vec_copy(&state.stack),
        }
    }
}

proof fn lemma_cp_points_multiset(
    points: Seq<Point>,
    states: Seq<CpModel>,
    actions: Seq<Action>,
    t: int,
)
    requires
        crate::algos::is_trace::<ClosestPairDivideAndConquer>(points, states, actions),
        forall|i: int| 0 <= i < states.len() ==> cp_wf(#[trigger] states[i]),
        0 <= t < states.len(),
    ensures
        states[t].points.to_multiset() == points.to_multiset(),
    decreases t,
{
    if t == 0 {
        assert(states[0] == cp_first(points));
        lemma_sort_spec_multiset(PointOrd::XY, points);
    } else {
        lemma_cp_points_multiset(points, states, actions, t - 1);
        let m = states[t - 1];
        assert(ClosestPairDivideAndConquer::next_model(states[t - 1]) == (
            states[t],
            actions[t - 1],
        ));
        assert(cp_wf(m));
        if m.stack.len() > 0 {
            let frame = m.stack.last();
            assert(frame_ok(m.stack[m.stack.len() - 1], m.points.len() as int));
            match frame.1 {
                StackState::ToLeftDivide => {
                    if frame.0.r - frame.0.l <= 3 {
                        lemma_resort_multiset(m.points, frame.0);
                    }
                },
                StackState::ToRightDivide => {},
                StackState::ToConquer(_) => {
                    lemma_resort_multiset(m.points, frame.0);
                },
            }
        }
    }
}

/// What the stepper's accumulated candidates mean: every sub-result held at
/// the end of a complete drive is either the infinite sentinel or a pair of
/// two distinct positions of the input point set — no recorded pair is ever
/// fabricated.
pub proof fn lemma_cp_trace_achieved(
    points: Seq<Point>,
    states: Seq<CpModel>,
    actions: Seq<Action>,
)
    requires
        crate::algos::is_trace::<ClosestPairDivideAndConquer>(points, states, actions),
        forall|i: int| 0 <= i < states.len() ==> cp_wf(#[trigger] states[i]),
    ensures
        forall|i: int|
            0 <= i < states[states.len() - 1].result.len() ==> (#[trigger] states[states.len()
                - 1].result[i] == inf_pair() || achieved_pair(
                points,
                0,
                points.len() as int,
                states[states.len() - 1].result[i],
            )),
{
    let last = states[states.len() - 1];
    lemma_cp_points_multiset(points, states, actions, states.len() - 1);
    assert(cp_wf(last));
    assert forall|i: int|
        0 <= i < last.result.len() implies (#[trigger] last.result[i] == inf_pair()
        || achieved_pair(points, 0, points.len() as int, last.result[i])) by {
        if last.result[i] != inf_pair() {
            assert(achieved_pair(last.points, 0, last.points.len() as int, last.result[i]));
            lemma_achieved_permuted(last.points, points, last.result[i]);
        }
    }
}

/// An empty input is final at once, with an empty result: the driver performs
/// no step at all.
pub proof fn lemma_cp_empty_input(points: Seq<Point>)
    requires
        points.len() == 0,
    ensures
        cp_first(points).stack.len() == 0,
        cp_first(points).result.len() == 0,
{
}

/// A one-point input terminates after a single brute-force step, with the
/// infinite sentinel as its trivial result.
pub proof fn lemma_cp_one_point(points: Seq<Point>)
    requires
        points.len() == 1,
        valid_point_seq(points),
    ensures
        cp_next(cp_first(points)).0.stack.len() == 0,
        cp_next(cp_first(points)).0.result == seq![inf_pair()],
{
    let m = cp_first(points);
    lemma_sort_spec_multiset(PointOrd::XY, points);
    assert(m.points.len() == 1);
    assert(m.stack == seq![(IndexBorders { l: 0, r: 1 }, StackState::ToLeftDivide)]);
    let pts = m.points;
    assert(bf_best(pts, 0, 1) == inf_pair()) by {
        assert(bf_row(pts, 0, 0, 0, inf_pair()) == inf_pair());
        assert(bf_rows(pts, 0, 1, 1, inf_pair()) == inf_pair());
        assert(bf_rows(pts, 0, 0, 1, inf_pair()) == inf_pair());
    }
    assert(m.stack.drop_last() =~= Seq::<(IndexBorders, StackState)>::empty());
    assert(cp_next(m).0.result =~= seq![inf_pair()]);
}

/// Driving the stepper over at most three points to termination takes at most
/// one step and yields exactly the brute-force closest pair of the x-sorted
/// points: its squared length is minimal over all point pairs, and it is a
/// pair of two input positions (never the sentinel once two points exist).
pub proof fn lemma_cp_small_input_exact(
    points: Seq<Point>,
    states: Seq<CpModel>,
    actions: Seq<Action>,
)
    requires
        crate::algos::is_trace::<ClosestPairDivideAndConquer>(points, states, actions),
        valid_point_seq(points),
        1 <= points.len() <= 3,
    ensures
        actions.len() == 1,
        states[states.len() - 1].result == seq![
            bf_best(sort_spec(PointOrd::XY, points), 0, points.len() as int),
        ],
        ({
            let sorted = sort_spec(PointOrd::XY, points);
            let best = bf_best(sorted, 0, points.len() as int);
            &&& forall|i: int, j: int|
                #![trigger sorted[i], sorted[j]]
                0 <= j < i < points.len() ==> pair_sq(best) <= sq_dist(sorted[i], sorted[j])
            &&& points.len() >= 2 ==> best != inf_pair()
            &&& sorted.to_multiset() == points.to_multiset()
        }),
{
    let m0 = states[0];
    let n = points.len() as int;
    lemma_sort_spec_multiset(PointOrd::XY, points);
    lemma_sort_spec_valid(PointOrd::XY, points);
    let sorted = sort_spec(PointOrd::XY, points);
    assert(m0 == cp_first(points));
    assert(m0.stack == seq![(IndexBorders { l: 0, r: points.len() as usize }, StackState::ToLeftDivide)]);
    assert(actions.len() >= 1) by {
        if actions.len() == 0 {
            assert(ClosestPairDivideAndConquer::is_final_model(states[0]));
        }
    }
    assert(!ClosestPairDivideAndConquer::is_final_model(states[0]));
    let step = cp_next(m0);
    assert(ClosestPairDivideAndConquer::next_model(states[0]) == (states[1], actions[0]));
    assert(m0.stack.last() == (IndexBorders { l: 0, r: points.len() as usize }, StackState::ToLeftDivide));
    assert(m0.stack.drop_last() =~= Seq::<(IndexBorders, StackState)>::empty());
    assert(step.0.stack.len() == 0);
    assert(states[1] == step.0);
    assert(actions.len() == 1) by {
        if actions.len() > 1 {
            assert(!ClosestPairDivideAndConquer::is_final_model(states[1]));
        }
    }
    assert(states[states.len() - 1] == states[1]);
    assert(step.0.result =~= seq![bf_best(sorted, 0, n)]);
    lemma_bf_best_props(sorted, 0, n);
}

} // verus!
