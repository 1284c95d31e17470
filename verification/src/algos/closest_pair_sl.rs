//! Closest pair by an incremental sweep line: points sorted by x, a window of
//! active points kept in an ordered structure keyed by (y, x), and for each
//! new point a bounded range query over the window.
//!
//! The ordered structure is a sorted vector with set semantics, mirroring an
//! ordered set exactly: inserting an element already present is a no-op, and
//! removal takes out the single stored copy.

use crate::algos::closest_pair_dnc::achieved_pair;
use crate::algos::closest_pair_dnc::lemma_achieved_permuted;
use crate::algos::closest_pair_dnc::lemma_achieved_widen;
use crate::algos::closest_pair_dnc::lemma_bf_best_extend;
use crate::algos::closest_pair_dnc::lemma_bf_best_props;
use crate::algos::closest_pair_dnc::lemma_bf_row_cases;
use crate::algos::closest_pair_dnc::bf_best;
use crate::algos::closest_pair_dnc::bf_row;
use crate::common::lemma_pair_sq_range;
use crate::common::lemma_sq_dist_sym;
use crate::common::lemma_square_facts;
use crate::common::pt_leq;
use crate::common::sorted_xy;
use crate::common::sq_dist;

use crate::algos::Algo;
use crate::common::Pair;
use crate::common::Point;
use crate::common::PointOrd;
use crate::common::abs_le_sqrt;
use crate::common::abs_le_sqrt_exec;
use crate::common::challenge;
use crate::common::clone_vec_copy;
use crate::common::gt_sqrt;
use crate::common::gt_sqrt_exec;
use crate::common::inf_pair;
use crate::common::lemma_sort_spec_valid;
use crate::common::lemma_valid_sq_bounded;
use crate::common::pair_sq;
use crate::common::sort_points;
use crate::common::sort_spec;
use crate::common::strip_h;
use crate::common::strip_h_exec;
use crate::common::valid_pair;
use crate::common::valid_point;
use crate::common::valid_point_seq;
use vstd::prelude::*;

verus! {

/// A point ordered by (y, x), the key of the sweep window.
#[derive(Copy, Clone, Debug, PartialEq, Eq, Structural)]
pub struct OrderedPoint(pub Point);

impl From<Point> for OrderedPoint {
    fn from(x: Point) -> (r: OrderedPoint) {
        OrderedPoint(x)
    }
}

impl vstd::std_specs::convert::FromSpecImpl<Point> for OrderedPoint {
    open spec fn obeys_from_spec() -> bool {
        true
    }

    open spec fn from_spec(x: Point) -> OrderedPoint {
        OrderedPoint(x)
    }
}

/// The (y, x) order of the sweep window.
pub open spec fn op_leq(a: OrderedPoint, b: OrderedPoint) -> bool {
    a.0.y < b.0.y || (a.0.y == b.0.y && a.0.x <= b.0.x)
}

/// Ordered-set insertion: the element lands at its sorted position, or nowhere
/// if it is already present.
pub open spec fn set_insert(s: Seq<OrderedPoint>, v: OrderedPoint) -> Seq<OrderedPoint>
    decreases s.len(),
{
    if s.len() == 0 {
        seq![v]
    } else if !op_leq(v, s[0]) {
        seq![s[0]] + set_insert(s.drop_first(), v)
    } else if s[0] == v {
        s
    } else {
        seq![v] + s
    }
}

/// Ordered-set removal: takes out the first stored copy of the element, if
/// any.
pub open spec fn set_remove(s: Seq<OrderedPoint>, v: OrderedPoint) -> Seq<OrderedPoint>
    decreases s.len(),
{
    if s.len() == 0 {
        s
    } else if s[0] == v {
        s.drop_first()
    } else {
        seq![s[0]] + set_remove(s.drop_first(), v)
    }
}

proof fn lemma_set_insert_elems(s: Seq<OrderedPoint>, v: OrderedPoint)
    ensures
        s.len() <= set_insert(s, v).len() <= s.len() + 1,
        forall|k: int|
            0 <= k < set_insert(s, v).len() ==> (#[trigger] set_insert(s, v)[k] == v || s.contains(
                set_insert(s, v)[k],
            )),
    decreases s.len(),
{
    if s.len() == 0 {
    } else if !op_leq(v, s[0]) {
        lemma_set_insert_elems(s.drop_first(), v);
        let t = set_insert(s, v);
        let t1 = set_insert(s.drop_first(), v);
        assert forall|k: int| 0 <= k < t.len() implies (#[trigger] t[k] == v || s.contains(
            t[k],
        )) by {
            if k == 0 {
                assert(t[k] == s[0]);
                assert(s.contains(s[0]));
            } else {
                assert(t[k] == t1[k - 1]);
                if t1[k - 1] != v {
                    let j = choose|j: int| 0 <= j < s.drop_first().len() && s.drop_first()[j]
                        == t1[k - 1];
                    assert(s[j + 1] == t1[k - 1]);
                }
            }
        }
    } else {
    }
}

proof fn lemma_set_remove_elems(s: Seq<OrderedPoint>, v: OrderedPoint)
    ensures
        set_remove(s, v).len() <= s.len(),
        forall|k: int|
            0 <= k < set_remove(s, v).len() ==> s.contains(#[trigger] set_remove(s, v)[k]),
    decreases s.len(),
{
    if s.len() == 0 {
    } else if s[0] == v {
        assert forall|k: int| 0 <= k < set_remove(s, v).len() implies s.contains(
            #[trigger] set_remove(s, v)[k],
        ) by {
            assert(set_remove(s, v)[k] == s[k + 1]);
        }
    } else {
        lemma_set_remove_elems(s.drop_first(), v);
        let t = set_remove(s, v);
        let t1 = set_remove(s.drop_first(), v);
        assert forall|k: int| 0 <= k < t.len() implies s.contains(#[trigger] t[k]) by {
            if k == 0 {
                assert(t[k] == s[0]);
            } else {
                assert(t[k] == t1[k - 1]);
                let j = choose|j: int| 0 <= j < s.drop_first().len() && s.drop_first()[j] == t1[k
                    - 1];
                assert(s[j + 1] == t1[k - 1]);
            }
        }
    }
}

proof fn lemma_set_insert_split(s: Seq<OrderedPoint>, v: OrderedPoint, i: int)
    requires
        0 <= i <= s.len(),
        forall|k: int| 0 <= k < i ==> !op_leq(v, #[trigger] s[k]),
        i == s.len() || op_leq(v, s[i]),
    ensures
        set_insert(s, v) == if i < s.len() && s[i] == v {
            s
        } else {
            s.insert(i, v)
        },
    decreases i,
{
    if i == 0 {
        if s.len() == 0 {
            assert(set_insert(s, v) =~= s.insert(0, v));
        } else if s[0] == v {
        } else {
            assert(set_insert(s, v) =~= s.insert(0, v));
        }
    } else {
        let rest = s.drop_first();
        assert(forall|k: int| 0 <= k < i - 1 ==> !op_leq(v, #[trigger] rest[k]));
        lemma_set_insert_split(rest, v, i - 1);
        if i < s.len() && s[i] == v {
            assert(rest[i - 1] == v);
            assert(set_insert(s, v) == seq![s[0]] + rest);
            assert(seq![s[0]] + rest =~= s);
        } else {
            assert(set_insert(s, v) == seq![s[0]] + rest.insert(i - 1, v));
            assert(seq![s[0]] + rest.insert(i - 1, v) =~= s.insert(i, v));
        }
    }
}

proof fn lemma_set_remove_split(s: Seq<OrderedPoint>, v: OrderedPoint, i: int)
    requires
        0 <= i <= s.len(),
        forall|k: int| 0 <= k < i ==> #[trigger] s[k] != v,
        i == s.len() || s[i] == v,
    ensures
        set_remove(s, v) == if i < s.len() {
            s.remove(i)
        } else {
            s
        },
    decreases i,
{
    if i == 0 {
        if s.len() > 0 {
            assert(set_remove(s, v) == s.drop_first());
            assert(s.drop_first() =~= s.remove(0));
        }
    } else {
        let rest = s.drop_first();
        assert(forall|k: int| 0 <= k < i - 1 ==> #[trigger] rest[k] != v);
        lemma_set_remove_split(rest, v, i - 1);
        if i < s.len() {
            assert(set_remove(s, v) == seq![s[0]] + rest.remove(i - 1));
            assert(seq![s[0]] + rest.remove(i - 1) =~= s.remove(i));
        } else {
            assert(set_remove(s, v) == seq![s[0]] + rest);
            assert(seq![s[0]] + rest =~= s);
        }
    }
}

/// Inserts into the sorted window, mirroring ordered-set insertion.
fn insert_active(set: &mut Vec<OrderedPoint>, v: OrderedPoint)
    requires
        old(set)@.len() < usize::MAX,
    ensures
        final(set)@ == set_insert(old(set)@, v),
{
    let ghost s = set@;
    let mut idx: usize = 0;
    while idx < set.len() && !(v.0.y < set[idx].0.y || (v.0.y == set[idx].0.y && v.0.x
        <= set[idx].0.x))
        invariant
            set@ == s,
            s.len() < usize::MAX,
            0 <= idx <= s.len(),
            forall|k: int| 0 <= k < idx ==> !op_leq(v, #[trigger] s[k]),
        decreases s.len() - idx,
    {
        idx = idx + 1;
    }
    proof {
        lemma_set_insert_split(s, v, idx as int);
    }
    if idx < set.len() {
        let w = set[idx];
        if w.0.x == v.0.x && w.0.y == v.0.y {
            proof {
                assert(s[idx as int] == v);
            }
            return ;
        }
    }
    proof {
        assert(!(idx < s.len() && s[idx as int] == v));
    }
    set.insert(idx, v);
}

/// Removes from the sorted window, mirroring ordered-set removal.
fn remove_active(set: &mut Vec<OrderedPoint>, v: OrderedPoint)
    ensures
        final(set)@ == set_remove(old(set)@, v),
{
    let ghost s = set@;
    let mut idx: usize = 0;
    while idx < set.len() && !(set[idx].0.x == v.0.x && set[idx].0.y == v.0.y)
        invariant
            set@ == s,
            0 <= idx <= s.len(),
            forall|k: int| 0 <= k < idx ==> #[trigger] s[k] != v,
        decreases s.len() - idx,
    {
        idx = idx + 1;
    }
    proof {
        lemma_set_remove_split(s, v, idx as int);
    }
    if idx < set.len() {
        set.remove(idx);
    }
}

/// The sweep window, the cursor bounds into the x-sorted points, and the best
/// pair seen so far.
#[derive(Clone, Debug)]
pub struct State {
    pub points: Vec<Point>,
    pub current_set: Vec<OrderedPoint>,
    pub left_index: usize,
    pub right_index: usize,
    pub nearest: Pair,
}

/// What the most recent step accomplished: the point scanned and the current
/// search radius.
#[derive(Copy, Clone, Debug, PartialEq, Eq)]
pub enum Action {
    NoAction,
    Scan((Point, i64)),
}

/// Mathematical model of a sweep-line state.
pub struct SlModel {
    pub points: Seq<Point>,
    pub current_set: Seq<OrderedPoint>,
    pub left_index: int,
    pub right_index: int,
    pub nearest: Pair,
}

/// Evicts, from the left of the window, the points whose x-distance from the
/// new point exceeds the current best distance.
pub open spec fn sl_evict(
    points: Seq<Point>,
    set: Seq<OrderedPoint>,
    left: int,
    right: int,
    p: Point,
    s0: int,
) -> (Seq<OrderedPoint>, int)
    decreases right - left,
{
    if left < right && gt_sqrt(p.x - points[left].x, s0) {
        sl_evict(points, set_remove(set, OrderedPoint(points[left])), left + 1, right, p, s0)
    } else {
        (set, left)
    }
}

/// The range query: the new point is compared against every window point
/// within the current best distance in y; the best pair is updated by each
/// strictly closer candidate, in window order.
pub open spec fn sl_scan(set: Seq<OrderedPoint>, p: Point, s0: int, best: Pair, i: int) -> Pair
    decreases set.len() - i,
{
    if i < 0 || i >= set.len() {
        best
    } else {
        let q = set[i].0;
        let best2 = if abs_le_sqrt(q.y - p.y, s0) {
            challenge(best, Pair { a: q, b: p })
        } else {
            best
        };
        sl_scan(set, p, s0, best2, i + 1)
    }
}

pub open spec fn sl_wf(m: SlModel) -> bool {
    &&& valid_point_seq(m.points)
    &&& 0 <= m.left_index <= m.right_index <= m.points.len()
    &&& m.current_set.len() <= m.right_index
    &&& forall|i: int| 0 <= i < m.current_set.len() ==> valid_point(#[trigger] m.current_set[i].0)
    &&& forall|i: int|
        0 <= i < m.current_set.len() ==> exists|t: int|
            0 <= t < m.right_index && m.points[t] == (#[trigger] m.current_set[i]).0
    &&& valid_pair(m.nearest)
    &&& (m.nearest == inf_pair() || achieved_pair(m.points, 0, m.right_index, m.nearest))
    &&& sorted_xy(m.points)
    &&& (m.right_index < m.points.len() ==> forall|t: int|
        0 <= t < m.left_index ==> gt_sqrt(
            m.points[m.right_index].x - (#[trigger] m.points[t]).x,
            pair_sq(m.nearest),
        ))
    &&& (pair_sq(m.nearest) == 0 || forall|t: int|
        m.left_index <= t < m.right_index ==> m.current_set.contains(
            OrderedPoint(#[trigger] m.points[t]),
        ))
    &&& pair_sq(m.nearest) == pair_sq(bf_best(m.points, 0, m.right_index))
}

proof fn lemma_set_remove_keep(s: Seq<OrderedPoint>, v: OrderedPoint, w: OrderedPoint)
    requires
        w != v,
        s.contains(w),
    ensures
        set_remove(s, v).contains(w),
    decreases s.len(),
{
    let k = choose|k: int| 0 <= k < s.len() && s[k] == w;
    if s[0] == v {
        assert(k >= 1);
        assert(set_remove(s, v)[k - 1] == s[k]);
    } else {
        let t = set_remove(s, v);
        if k == 0 {
            assert(t[0] == w);
        } else {
            let rest = s.drop_first();
            assert(rest[k - 1] == w);
            assert(rest.contains(w));
            lemma_set_remove_keep(rest, v, w);
            let t1 = set_remove(rest, v);
            let k2 = choose|k2: int| 0 <= k2 < t1.len() && t1[k2] == w;
            assert(t[k2 + 1] == w);
        }
    }
}

proof fn lemma_set_insert_keep(s: Seq<OrderedPoint>, v: OrderedPoint)
    ensures
        forall|w: OrderedPoint| s.contains(w) ==> #[trigger] set_insert(s, v).contains(w),
        set_insert(s, v).contains(v),
    decreases s.len(),
{
    if s.len() == 0 {
        assert(set_insert(s, v)[0] == v);
    } else if !op_leq(v, s[0]) {
        let rest = s.drop_first();
        lemma_set_insert_keep(rest, v);
        let t1 = set_insert(rest, v);
        let t = set_insert(s, v);
        assert(t == seq![s[0]] + t1);
        assert forall|w: OrderedPoint| s.contains(w) implies #[trigger] t.contains(w) by {
            let k = choose|k: int| 0 <= k < s.len() && s[k] == w;
            if k == 0 {
                assert(t[0] == w);
            } else {
                assert(rest[k - 1] == w);
                assert(rest.contains(w));
                assert(t1.contains(w));
                let k2 = choose|k2: int| 0 <= k2 < t1.len() && t1[k2] == w;
                assert(t[k2 + 1] == w);
            }
        }
        assert(t1.contains(v));
        let k2 = choose|k2: int| 0 <= k2 < t1.len() && t1[k2] == v;
        assert(t[k2 + 1] == v);
    } else if s[0] == v {
        assert(set_insert(s, v) == s);
        assert(s[0] == v);
    } else {
        let t = set_insert(s, v);
        assert(t == seq![v] + s);
        assert(t[0] == v);
        assert forall|w: OrderedPoint| s.contains(w) implies #[trigger] t.contains(w) by {
            let k = choose|k: int| 0 <= k < s.len() && s[k] == w;
            assert(t[k + 1] == w);
        }
    }
}

proof fn lemma_sl_scan_min(set: Seq<OrderedPoint>, p: Point, s0: int, best: Pair, i: int)
    requires
        0 <= i,
    ensures
        pair_sq(sl_scan(set, p, s0, best, i)) <= pair_sq(best),
        forall|k: int|
            #![trigger set[k]]
            i <= k < set.len() && abs_le_sqrt(set[k].0.y - p.y, s0) ==> pair_sq(
                sl_scan(set, p, s0, best, i),
            ) <= pair_sq(Pair { a: set[k].0, b: p }),
    decreases set.len() - i,
{
    if 0 <= i < set.len() {
        let q = set[i].0;
        let best2 = if abs_le_sqrt(q.y - p.y, s0) {
            challenge(best, Pair { a: q, b: p })
        } else {
            best
        };
        lemma_sl_scan_min(set, p, s0, best2, i + 1);
        let res = sl_scan(set, p, s0, best, i);
        assert(res == sl_scan(set, p, s0, best2, i + 1));
        assert forall|k: int|
            #![trigger set[k]]
            i <= k < set.len() && abs_le_sqrt(set[k].0.y - p.y, s0) implies pair_sq(res)
            <= pair_sq(Pair { a: set[k].0, b: p }) by {
            if k == i {
                assert(pair_sq(best2) <= pair_sq(Pair { a: q, b: p }));
                assert(pair_sq(res) <= pair_sq(best2));
            }
        }
    }
}

proof fn lemma_evict_dead(
    points: Seq<Point>,
    set: Seq<OrderedPoint>,
    left: int,
    right: int,
    p: Point,
    s0: int,
)
    ensures
        left <= sl_evict(points, set, left, right, p, s0).1,
        forall|t: int|
            left <= t < sl_evict(points, set, left, right, p, s0).1 ==> gt_sqrt(
                p.x - (#[trigger] points[t]).x,
                s0,
            ),
    decreases right - left,
{
    if left < right && gt_sqrt(p.x - points[left].x, s0) {
        lemma_evict_dead(points, set_remove(set, OrderedPoint(points[left])), left + 1, right, p, s0);
    }
}

proof fn lemma_evict_window(
    points: Seq<Point>,
    set: Seq<OrderedPoint>,
    left: int,
    right: int,
    p: Point,
    s0: int,
)
    requires
        0 <= left <= right <= points.len(),
        forall|t: int| left <= t < right ==> set.contains(OrderedPoint(#[trigger] points[t])),
        forall|u: int, t: int|
            #![trigger points[u], points[t]]
            0 <= u < t < right ==> points[u] != points[t],
    ensures
        forall|t: int|
            sl_evict(points, set, left, right, p, s0).1 <= t < right ==> sl_evict(
                points,
                set,
                left,
                right,
                p,
                s0,
            ).0.contains(OrderedPoint(#[trigger] points[t])),
    decreases right - left,
{
    if left < right && gt_sqrt(p.x - points[left].x, s0) {
        let removed = set_remove(set, OrderedPoint(points[left]));
        assert forall|t: int|
            left + 1 <= t < right implies removed.contains(
            OrderedPoint(#[trigger] points[t]),
        ) by {
            assert(points[left] != points[t]);
            lemma_set_remove_keep(set, OrderedPoint(points[left]), OrderedPoint(points[t]));
        }
        lemma_evict_window(points, removed, left + 1, right, p, s0);
    }
}

proof fn lemma_gt_sqrt_mono(d: int, d2: int, s: int, s2: int)
    requires
        gt_sqrt(d, s),
        d2 >= d,
        s2 <= s,
        s <= crate::common::inf_sq(),
    ensures
        gt_sqrt(d2, s2),
{
    assert(d2 * d2 >= d * d) by (nonlinear_arith)
        requires
            d2 >= d > 0,
    ;
}


proof fn lemma_sl_prefix_distinct(m: SlModel)
    requires
        sl_wf(m),
        pair_sq(m.nearest) > 0,
    ensures
        forall|u: int, t2: int|
            #![trigger m.points[u], m.points[t2]]
            0 <= u < t2 < m.right_index ==> m.points[u] != m.points[t2],
{
    let pts = m.points;
    let r = m.right_index;
    lemma_bf_best_props(pts, 0, r);
    assert forall|u: int, t2: int|
        #![trigger pts[u], pts[t2]]
        0 <= u < t2 < r implies pts[u] != pts[t2] by {
        if pts[u] == pts[t2] {
            assert(pair_sq(bf_best(pts, 0, r)) <= sq_dist(pts[t2], pts[u]));
            assert(sq_dist(pts[t2], pts[u]) == 0);
        }
    }
}

proof fn lemma_sl_evicted_witnesses(m: SlModel)
    requires
        sl_wf(m),
        m.right_index < m.points.len(),
    ensures
        ({
            let ev = sl_evict(
                m.points,
                m.current_set,
                m.left_index,
                m.right_index,
                m.points[m.right_index],
                pair_sq(m.nearest),
            );
            forall|k: int|
                0 <= k < ev.0.len() ==> exists|t: int|
                    0 <= t < m.right_index && m.points[t] == (#[trigger] ev.0[k]).0
        }),
{
    let pts = m.points;
    let r = m.right_index;
    let p = pts[r];
    let s0 = pair_sq(m.nearest);
    let ev = sl_evict(pts, m.current_set, m.left_index, r, p, s0);
    lemma_evict_len(pts, m.current_set, m.left_index, r, p, s0);
    assert forall|k: int|
        0 <= k < ev.0.len() implies exists|t: int|
        0 <= t < r && pts[t] == (#[trigger] ev.0[k]).0 by {
        assert(m.current_set.contains(ev.0[k]));
        let j = choose|j: int| 0 <= j < m.current_set.len() && m.current_set[j] == ev.0[k];
        assert(exists|t: int| 0 <= t < r && pts[t] == (#[trigger] m.current_set[j]).0);
    }
}

/// The functional heart of the sweep: after one step, the best candidate's
/// squared length is exactly the brute-force minimum over the processed
/// prefix.
#[verifier::rlimit(100)]
proof fn lemma_sl_step_equality(m: SlModel)
    requires
        sl_wf(m),
        m.right_index < m.points.len(),
    ensures
        ({
            let r = m.right_index;
            let p = m.points[r];
            let s0 = pair_sq(m.nearest);
            let ev = sl_evict(m.points, m.current_set, m.left_index, r, p, s0);
            let nn = sl_scan(ev.0, p, s0, m.nearest, 0);
            pair_sq(nn) == pair_sq(bf_best(m.points, 0, r + 1))
        }),
{
    let pts = m.points;
    let r = m.right_index;
    let p = pts[r];
    let s0 = pair_sq(m.nearest);
    let ev = sl_evict(pts, m.current_set, m.left_index, r, p, s0);
    let evicted = ev.0;
    let left_new = ev.1;
    let nn = sl_scan(evicted, p, s0, m.nearest, 0);
    lemma_pair_sq_range(m.nearest);
    lemma_evict_dead(pts, m.current_set, m.left_index, r, p, s0);
    lemma_sl_scan_min(evicted, p, s0, m.nearest, 0);
    lemma_sl_evicted_witnesses(m);
    if m.nearest != inf_pair() {
        lemma_achieved_widen(pts, r, r + 1, m.nearest);
    }
    lemma_sl_scan_achieved(evicted, p, s0, m.nearest, 0, pts, r);
    lemma_bf_best_extend(pts, 0, r);
    let bf_old = bf_best(pts, 0, r);
    let bf_new = bf_best(pts, 0, r + 1);
    assert(bf_new == bf_row(pts, r, 0, r, bf_old));
    crate::algos::closest_pair_dnc::lemma_bf_row_props(pts, 0, r + 1, r, 0, r, bf_old);
    lemma_bf_row_cases(pts, r, 0, r, bf_old);
    lemma_bf_best_props(pts, 0, r + 1);
    assert(pair_sq(bf_old) == s0);
    // the candidate is never shorter than the true minimum
    assert(pair_sq(bf_new) <= pair_sq(nn)) by {
        if nn == inf_pair() {
            assert(pair_sq(bf_new) <= pair_sq(bf_old) <= crate::common::inf_sq());
        } else {
            assert(achieved_pair(pts, 0, r + 1, nn));
            let (i, j) = choose|i: int, j: int|
                #![trigger pts[i], pts[j]]
                0 <= j < i < r + 1 && (nn == (Pair { a: pts[i], b: pts[j] }) || nn == (Pair {
                    a: pts[j],
                    b: pts[i],
                }));
            assert(valid_point(pts[i]) && valid_point(pts[j]));
            assert(nn != inf_pair());
            assert(pair_sq(nn) == sq_dist(nn.a, nn.b));
            lemma_sq_dist_sym(pts[i], pts[j]);
            assert(pair_sq(bf_new) <= sq_dist(pts[i], pts[j]));
        }
    }
    // the candidate is never longer than the true minimum
    assert(pair_sq(nn) <= pair_sq(bf_new)) by {
        assert(pair_sq(nn) <= s0);
        if bf_new == bf_old {
        } else {
            let t = choose|t: int|
                #![trigger pts[t]]
                0 <= t < r && bf_new == (Pair { a: pts[r], b: pts[t] });
            assert(valid_point(pts[r]) && valid_point(pts[t]));
            assert(bf_new != inf_pair());
            let d = sq_dist(pts[r], pts[t]);
            assert(pair_sq(bf_new) == d);
            lemma_sq_dist_sym(pts[r], pts[t]);
            lemma_square_facts(pts[r].x - pts[t].x, 0);
            lemma_square_facts(pts[r].y - pts[t].y, 0);
            if d >= s0 {
            } else {
                assert(s0 > 0);
                lemma_sl_prefix_distinct(m);
                assert(t >= left_new) by {
                    assert((pts[r].x - pts[t].x) * (pts[r].x - pts[t].x) <= d);
                    if t < m.left_index {
                        assert(gt_sqrt(pts[r].x - pts[t].x, s0));
                    } else if t < left_new {
                        assert(gt_sqrt(p.x - pts[t].x, s0));
                    }
                }
                lemma_evict_window(pts, m.current_set, m.left_index, r, p, s0);
                assert(evicted.contains(OrderedPoint(pts[t])));
                let k = choose|k: int| 0 <= k < evicted.len() && evicted[k] == OrderedPoint(
                    pts[t],
                );
                assert(abs_le_sqrt(evicted[k].0.y - p.y, s0)) by {
                    assert((pts[t].y - p.y) * (pts[t].y - p.y) <= sq_dist(pts[t], pts[r]));
                }
                assert(pair_sq(nn) <= pair_sq(Pair { a: pts[t], b: p }));
                assert((Pair { a: pts[t], b: p }) != inf_pair());
                assert(pair_sq(Pair { a: pts[t], b: p }) == sq_dist(pts[t], pts[r]));
            }
        }
    }
}

/// After a step, the points left of the window stay out of reach of every
/// later point, and the window still holds every point within reach.
#[verifier::rlimit(100)]
proof fn lemma_sl_step_window(m: SlModel)
    requires
        sl_wf(m),
        m.right_index < m.points.len(),
    ensures
        ({
            let r = m.right_index;
            let p = m.points[r];
            let s0 = pair_sq(m.nearest);
            let ev = sl_evict(m.points, m.current_set, m.left_index, r, p, s0);
            let nn = sl_scan(ev.0, p, s0, m.nearest, 0);
            &&& (r + 1 < m.points.len() ==> forall|t: int|
                0 <= t < ev.1 ==> gt_sqrt(
                    m.points[r + 1].x - (#[trigger] m.points[t]).x,
                    pair_sq(nn),
                ))
            &&& (pair_sq(nn) == 0 || forall|t: int|
                ev.1 <= t < r + 1 ==> set_insert(ev.0, OrderedPoint(p)).contains(
                    OrderedPoint(#[trigger] m.points[t]),
                ))
        }),
{
    let pts = m.points;
    let r = m.right_index;
    let p = pts[r];
    let s0 = pair_sq(m.nearest);
    let ev = sl_evict(pts, m.current_set, m.left_index, r, p, s0);
    let evicted = ev.0;
    let left_new = ev.1;
    let nn = sl_scan(evicted, p, s0, m.nearest, 0);
    lemma_pair_sq_range(m.nearest);
    lemma_evict_dead(pts, m.current_set, m.left_index, r, p, s0);
    lemma_sl_scan_min(evicted, p, s0, m.nearest, 0);
    lemma_sl_evicted_witnesses(m);
    if m.nearest != inf_pair() {
        lemma_achieved_widen(pts, r, r + 1, m.nearest);
    }
    lemma_sl_scan_achieved(evicted, p, s0, m.nearest, 0, pts, r);
    if r + 1 < pts.len() {
        assert forall|t: int|
            0 <= t < left_new implies gt_sqrt(
            pts[r + 1].x - (#[trigger] pts[t]).x,
            pair_sq(nn),
        ) by {
            assert(pt_leq(PointOrd::XY, pts[r], pts[r + 1]));
            if t < m.left_index {
                assert(gt_sqrt(pts[r].x - pts[t].x, s0));
                lemma_gt_sqrt_mono(pts[r].x - pts[t].x, pts[r + 1].x - pts[t].x, s0, pair_sq(nn));
            } else {
                assert(gt_sqrt(p.x - pts[t].x, s0));
                lemma_gt_sqrt_mono(p.x - pts[t].x, pts[r + 1].x - pts[t].x, s0, pair_sq(nn));
            }
        }
    }
    if pair_sq(nn) != 0 {
        assert(s0 > 0) by {
            if nn == inf_pair() {
            } else {
                assert(achieved_pair(pts, 0, r + 1, nn));
                let (i, j) = choose|i: int, j: int|
                    #![trigger pts[i], pts[j]]
                    0 <= j < i < r + 1 && (nn == (Pair { a: pts[i], b: pts[j] }) || nn == (Pair {
                        a: pts[j],
                        b: pts[i],
                    }));
                assert(valid_point(pts[i]) && valid_point(pts[j]));
                assert(nn != inf_pair());
                lemma_sq_dist_sym(nn.a, nn.b);
                assert(pair_sq(nn) >= 0);
            }
        }
        lemma_sl_prefix_distinct(m);
        lemma_evict_window(pts, m.current_set, m.left_index, r, p, s0);
        lemma_set_insert_keep(evicted, OrderedPoint(p));
        assert forall|t: int|
            left_new <= t < r + 1 implies set_insert(evicted, OrderedPoint(p)).contains(
            OrderedPoint(#[trigger] pts[t]),
        ) by {
            if t < r {
                assert(evicted.contains(OrderedPoint(pts[t])));
            } else {
                assert(set_insert(evicted, OrderedPoint(p)).contains(OrderedPoint(p)));
            }
        }
    }
}

proof fn lemma_sl_scan_achieved(
    set: Seq<OrderedPoint>,
    p: Point,
    s0: int,
    best: Pair,
    i: int,
    points: Seq<Point>,
    right: int,
)
    requires
        best == inf_pair() || achieved_pair(points, 0, right + 1, best),
        forall|k: int|
            0 <= k < set.len() ==> exists|t: int|
                0 <= t < right && points[t] == (#[trigger] set[k]).0,
        0 <= right < points.len(),
        p == points[right],
    ensures
        sl_scan(set, p, s0, best, i) == inf_pair() || achieved_pair(
            points,
            0,
            right + 1,
            sl_scan(set, p, s0, best, i),
        ),
    decreases set.len() - i,
{
    if 0 <= i < set.len() {
        let q = set[i].0;
        let cand = Pair { a: q, b: p };
        let best2 = if abs_le_sqrt(q.y - p.y, s0) {
            challenge(best, cand)
        } else {
            best
        };
        if best2 == cand {
            let t = choose|t: int| 0 <= t < right && points[t] == set[i].0;
            assert(0 <= t < right < right + 1 && (cand == (Pair {
                a: points[right],
                b: points[t],
            }) || cand == (Pair { a: points[t], b: points[right] })));
            assert(achieved_pair(points, 0, right + 1, cand));
        }
        lemma_sl_scan_achieved(set, p, s0, best2, i + 1, points, right);
    }
}

/// The initial model: points sorted by x, an empty window, and the infinite
/// sentinel as the first candidate.
pub open spec fn sl_first(points: Seq<Point>) -> SlModel {
    SlModel {
        points: sort_spec(PointOrd::XY, points),
        current_set: Seq::empty(),
        left_index: 0,
        right_index: 0,
        nearest: inf_pair(),
    }
}

/// The transition function: evict stale window points, query the window
/// around the entering point, record any closer pair, insert the point, and
/// advance the cursor.
pub open spec fn sl_next(m: SlModel) -> (SlModel, Action) {
    if m.right_index >= m.points.len() {
        (m, Action::NoAction)
    } else {
        let s0 = pair_sq(m.nearest);
        let p = m.points[m.right_index];
        let evicted = sl_evict(m.points, m.current_set, m.left_index, m.right_index, p, s0);
        let nearest2 = sl_scan(evicted.0, p, s0, m.nearest, 0);
        (
            SlModel {
                points: m.points,
                current_set: set_insert(evicted.0, OrderedPoint(p)),
                left_index: evicted.1,
                right_index: m.right_index + 1,
                nearest: nearest2,
            },
            Action::Scan((p, strip_h(s0) as i64)),
        )
    }
}

pub struct ClosestPairSweepLine;

impl Algo for ClosestPairSweepLine {
    type State = State;

    type Action = Action;

    type StateModel = SlModel;

    type ActionModel = Action;

    open spec fn st_model(s: &State) -> SlModel {
        SlModel {
            points: s.points@,
            current_set: s.current_set@,
            left_index: s.left_index as int,
            right_index: s.right_index as int,
            nearest: s.nearest,
        }
    }

    open spec fn act_model(a: &Action) -> Action {
        *a
    }

    open spec fn wf(m: SlModel) -> bool {
        sl_wf(m)
    }

    open spec fn measure(m: SlModel) -> nat {
        (m.points.len() - m.right_index) as nat
    }

    open spec fn first_model(points: Seq<Point>) -> SlModel {
        sl_first(points)
    }

    open spec fn next_model(m: SlModel) -> (SlModel, Action) {
        sl_next(m)
    }

    open spec fn is_final_model(m: SlModel) -> bool {
        m.right_index >= m.points.len()
    }

    fn first_state(points: Vec<Point>) -> (s: State) {
        let sorted = sort_points(&points, &PointOrd::XY);
        proof {
            lemma_sort_spec_valid(PointOrd::XY, points@);
            crate::common::lemma_sort_spec_sorted_xy(points@);
            assert(bf_best(sorted@, 0, 0) == inf_pair());
        }
        State {
            points: sorted,
            current_set: Vec::new(),
            left_index: 0,
            right_index: 0,
            nearest: Pair::inf(),
        }
    }

    #[verifier::rlimit(100)]
    fn next_state(state: State) -> (r: (State, Action)) {
        let State { points, mut current_set, mut left_index, mut right_index, mut nearest } =
            state;
        let ghost m = SlModel {
            points: points@,
            current_set: current_set@,
            left_index: left_index as int,
            right_index: right_index as int,
            nearest,
        };
        if right_index >= points.len() {
            return (
                State { points, current_set, left_index, right_index, nearest },
                Action::NoAction,
            );
        }
        proof {
            if nearest != inf_pair() {
                lemma_valid_sq_bounded(nearest.a, nearest.b);
            }
        }
        let s0 = nearest.square_len();
        let p = points[right_index];
        loop
            invariant_except_break
                m.left_index <= left_index as int <= right_index as int,
                right_index as int == m.right_index < points@.len(),
                points@ == m.points,
                valid_point_seq(points@),
                p == m.points[m.right_index],
                s0 == pair_sq(m.nearest),
                sl_evict(m.points, current_set@, left_index as int, right_index as int, p, s0 as int)
                    == sl_evict(
                    m.points,
                    m.current_set,
                    m.left_index,
                    m.right_index,
                    p,
                    s0 as int,
                ),
            ensures
                points@ == m.points,
                (current_set@, left_index as int) == sl_evict(
                    m.points,
                    m.current_set,
                    m.left_index,
                    m.right_index,
                    p,
                    s0 as int,
                ),
                m.left_index <= left_index as int <= right_index as int,
            decreases right_index - left_index,
        {
            if !(left_index < right_index) {
                break ;
            }
            let q = points[left_index];
            if !gt_sqrt_exec(p.x as i128 - q.x as i128, s0) {
                break ;
            }
            remove_active(&mut current_set, OrderedPoint(q));
            left_index = left_index + 1;
        }
        let ghost evicted_set = current_set@;
        proof {
            lemma_evict_len(m.points, m.current_set, m.left_index, m.right_index, p, s0 as int);
            assert forall|k: int|
                0 <= k < current_set@.len() implies valid_point(
                #[trigger] current_set@[k].0,
            ) by {
                assert(m.current_set.contains(current_set@[k]));
                let j = choose|j: int|
                    0 <= j < m.current_set.len() && m.current_set[j] == current_set@[k];
                assert(valid_point(m.current_set[j].0));
            }
        }
        let mut i: usize = 0;
        while i < current_set.len()
            invariant
                0 <= i <= current_set@.len(),
                current_set@ == evicted_set,
                valid_point(p),
                valid_pair(nearest),
                forall|k: int|
                    0 <= k < current_set@.len() ==> valid_point(#[trigger] current_set@[k].0),
                s0 == pair_sq(m.nearest),
                sl_scan(evicted_set, p, s0 as int, nearest, i as int) == sl_scan(
                    evicted_set,
                    p,
                    s0 as int,
                    m.nearest,
                    0,
                ),
            decreases current_set@.len() - i,
        {
            let q = current_set[i].0;
            if abs_le_sqrt_exec(q.y as i128 - p.y as i128, s0) {
                let cur = Pair::new(q, p);
                if cur.square_len() < nearest.square_len() {
                    nearest = cur;
                }
            }
            i = i + 1;
        }
        insert_active(&mut current_set, OrderedPoint(p));
        right_index = right_index + 1;
        let h = strip_h_exec(s0);
        let a = Action::Scan((p, h));
        proof {
            let ev = sl_evict(m.points, m.current_set, m.left_index, m.right_index, p, s0 as int);
            lemma_set_insert_elems(ev.0, OrderedPoint(p));
            assert forall|k: int|
                0 <= k < evicted_set.len() implies valid_point(
                #[trigger] evicted_set[k].0,
            ) by {}
            // window size bound: eviction only shrinks the window
            lemma_evict_len(m.points, m.current_set, m.left_index, m.right_index, p, s0 as int);
            // every window point is a processed point, so every candidate the
            // scan records is a pair of two distinct input positions
            assert forall|k: int|
                0 <= k < evicted_set.len() implies exists|t: int|
                0 <= t < m.right_index && m.points[t] == (#[trigger] evicted_set[k]).0 by {
                assert(m.current_set.contains(evicted_set[k]));
                let j = choose|j: int|
                    0 <= j < m.current_set.len() && m.current_set[j] == evicted_set[k];
                assert(exists|t: int|
                    0 <= t < m.right_index && m.points[t] == (#[trigger] m.current_set[j]).0);
            }
            if m.nearest != inf_pair() {
                lemma_achieved_widen(m.points, m.right_index, m.right_index + 1, m.nearest);
            }
            lemma_sl_scan_achieved(
                evicted_set,
                p,
                s0 as int,
                m.nearest,
                0,
                m.points,
                m.right_index,
            );
            assert forall|k: int|
                0 <= k < current_set@.len() implies exists|t: int|
                0 <= t < right_index && points@[t] == (#[trigger] current_set@[k]).0 by {
                if current_set@[k] == OrderedPoint(p) {
                    assert(0 <= m.right_index < right_index && points@[m.right_index] == p);
                } else {
                    assert(evicted_set.contains(current_set@[k]));
                    let j = choose|j: int|
                        0 <= j < evicted_set.len() && evicted_set[j] == current_set@[k];
                    let t = choose|t: int|
                        0 <= t < m.right_index && m.points[t] == evicted_set[j].0;
                    assert(0 <= t < right_index && points@[t] == current_set@[k].0);
                }
            }
        }
        proof {
            lemma_sl_step_equality(m);
            lemma_sl_step_window(m);
            let m2 = SlModel {
                points: points@,
                current_set: current_set@,
                left_index: left_index as int,
                right_index: right_index as int,
                nearest,
            };
            assert(valid_point_seq(m2.points));
            assert(0 <= m2.left_index <= m2.right_index <= m2.points.len());
            assert(m2.current_set.len() <= m2.right_index);
            assert(forall|i: int|
                0 <= i < m2.current_set.len() ==> valid_point(#[trigger] m2.current_set[i].0));
            assert(valid_pair(m2.nearest));
            assert(m2.nearest == inf_pair() || achieved_pair(
                m2.points,
                0,
                m2.right_index,
                m2.nearest,
            ));
            assert(sl_wf(m2));
        }
        (State { points, current_set, left_index, right_index, nearest }, a)
    }

    fn is_final(state: &State) -> (b: bool) {
        state.right_index >= state.points.len()
    }

    fn clone_state(state: &State) -> (s: State) {
        State {
            points: clone_vec_copy(&state.points),
            current_set: clone_vec_copy(&state.current_set),
            left_index: state.left_index,
            right_index: state.right_index,
            nearest: state.nearest,
        }
    }
}

/// An empty input is final at once, with the infinite sentinel as its trivial
/// result.
pub proof fn lemma_sl_empty_input(points: Seq<Point>)
    requires
        points.len() == 0,
    ensures
        sl_first(points).right_index >= sl_first(points).points.len(),
        sl_first(points).nearest == inf_pair(),
{
}

/// A one-point input terminates after a single scan step, with the infinite
/// sentinel still as its trivial result.
pub proof fn lemma_sl_one_point(points: Seq<Point>)
    requires
        points.len() == 1,
    ensures
        sl_next(sl_first(points)).0.right_index >= sl_next(sl_first(points)).0.points.len(),
        sl_next(sl_first(points)).0.nearest == inf_pair(),
{
    let m = sl_first(points);
    crate::common::lemma_sort_spec_multiset(PointOrd::XY, points);
    assert(m.points.len() == 1);
    let p = m.points[0];
    let ev = sl_evict(m.points, m.current_set, 0, 0, p, pair_sq(inf_pair()));
    assert(ev == (m.current_set, 0int));
    assert(sl_scan(m.current_set, p, pair_sq(inf_pair()), inf_pair(), 0) == inf_pair());
}

proof fn lemma_sl_points_constant(
    points: Seq<Point>,
    states: Seq<SlModel>,
    actions: Seq<Action>,
    t: int,
)
    requires
        crate::algos::is_trace::<ClosestPairSweepLine>(points, states, actions),
        0 <= t < states.len(),
    ensures
        states[t].points == sort_spec(PointOrd::XY, points),
    decreases t,
{
    if t > 0 {
        lemma_sl_points_constant(points, states, actions, t - 1);
        assert(ClosestPairSweepLine::next_model(states[t - 1]) == (states[t], actions[t - 1]));
    }
}

/// The sweep computes the closest pair: driving the stepper to termination
/// yields a candidate whose squared length is a lower bound on the squared
/// distance of every pair of input points, is attained by a pair of two
/// distinct input positions, and is finite whenever two points exist — the
/// brute-force minimum over all point pairs, exactly.
pub proof fn lemma_sl_trace_closest(
    points: Seq<Point>,
    states: Seq<SlModel>,
    actions: Seq<Action>,
)
    requires
        crate::algos::is_trace::<ClosestPairSweepLine>(points, states, actions),
        forall|i: int| 0 <= i < states.len() ==> sl_wf(#[trigger] states[i]),
        valid_point_seq(points),
    ensures
        ({
            let nearest = states[states.len() - 1].nearest;
            &&& forall|i: int, j: int|
                #![trigger points[i], points[j]]
                0 <= j < i < points.len() ==> pair_sq(nearest) <= sq_dist(points[i], points[j])
            &&& (nearest == inf_pair() || achieved_pair(points, 0, points.len() as int, nearest))
            &&& (points.len() >= 2 ==> nearest != inf_pair())
        }),
{
    let last = states[states.len() - 1];
    let nearest = last.nearest;
    lemma_sl_points_constant(points, states, actions, states.len() - 1);
    crate::common::lemma_sort_spec_multiset(PointOrd::XY, points);
    crate::common::lemma_sort_spec_valid(PointOrd::XY, points);
    let sorted = sort_spec(PointOrd::XY, points);
    assert(sl_wf(last));
    assert(last.right_index == sorted.len());
    assert(pair_sq(nearest) == pair_sq(bf_best(sorted, 0, sorted.len() as int)));
    lemma_bf_best_props(sorted, 0, sorted.len() as int);
    assert forall|i: int, j: int|
        #![trigger points[i], points[j]]
        0 <= j < i < points.len() implies pair_sq(nearest) <= sq_dist(points[i], points[j]) by {
        let cand = Pair { a: points[i], b: points[j] };
        assert(achieved_pair(points, 0, points.len() as int, cand)) by {
            assert(0 <= j < i < points.len() && (cand == (Pair { a: points[i], b: points[j] })
                || cand == (Pair { a: points[j], b: points[i] })));
        }
        lemma_achieved_permuted(points, sorted, cand);
        let (k, l) = choose|k: int, l: int|
            #![trigger sorted[k], sorted[l]]
            0 <= l < k < sorted.len() && (cand == (Pair { a: sorted[k], b: sorted[l] }) || cand
                == (Pair { a: sorted[l], b: sorted[k] }));
        assert(pair_sq(bf_best(sorted, 0, sorted.len() as int)) <= sq_dist(sorted[k], sorted[l]));
        lemma_sq_dist_sym(sorted[k], sorted[l]);
        lemma_sq_dist_sym(points[i], points[j]);
        assert(sq_dist(sorted[k], sorted[l]) == sq_dist(cand.a, cand.b));
        assert(sq_dist(cand.a, cand.b) == sq_dist(points[i], points[j]));
    }
    if nearest != inf_pair() {
        lemma_achieved_widen(sorted, last.right_index, sorted.len() as int, nearest);
        lemma_achieved_permuted(sorted, points, nearest);
    }
    if points.len() >= 2 {
        assert(bf_best(sorted, 0, sorted.len() as int) != inf_pair());
        let bf = bf_best(sorted, 0, sorted.len() as int);
        assert(achieved_pair(sorted, 0, sorted.len() as int, bf));
        let (k, l) = choose|k: int, l: int|
            #![trigger sorted[k], sorted[l]]
            0 <= l < k < sorted.len() && (bf == (Pair { a: sorted[k], b: sorted[l] }) || bf == (
            Pair { a: sorted[l], b: sorted[k] }));
        assert(valid_point(sorted[k]) && valid_point(sorted[l]));
        lemma_valid_sq_bounded(bf.a, bf.b);
        assert(pair_sq(bf) < crate::common::inf_sq());
        assert(nearest != inf_pair());
    }
}

proof fn lemma_evict_len(
    points: Seq<Point>,
    set: Seq<OrderedPoint>,
    left: int,
    right: int,
    p: Point,
    s0: int,
)
    ensures
        sl_evict(points, set, left, right, p, s0).0.len() <= set.len(),
        forall|k: int|
            0 <= k < sl_evict(points, set, left, right, p, s0).0.len() ==> set.contains(
                #[trigger] sl_evict(points, set, left, right, p, s0).0[k],
            ),
    decreases right - left,
{
    if left < right && gt_sqrt(p.x - points[left].x, s0) {
        let removed = set_remove(set, OrderedPoint(points[left]));
        lemma_set_remove_elems(set, OrderedPoint(points[left]));
        lemma_evict_len(points, removed, left + 1, right, p, s0);
        let fin = sl_evict(points, set, left, right, p, s0).0;
        assert forall|k: int| 0 <= k < fin.len() implies set.contains(#[trigger] fin[k]) by {
            assert(removed.contains(fin[k]));
            let j = choose|j: int| 0 <= j < removed.len() && removed[j] == fin[k];
        }
    }
}

} // verus!
