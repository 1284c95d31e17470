//! Classic Graham scan: points sorted by polar angle around the
//! lexicographically smallest point, then accepted or rejected one step at a
//! time.

pub use crate::algos::graham_common::Action;
use crate::algos::graham_common::Turn;
use crate::algos::graham_common::step;
use crate::algos::graham_common::step_model;
use crate::algos::Algo;
use crate::common::Point;
use crate::common::PointOrd;
use crate::common::MAX_POINTS;
use crate::common::argmin_xy;
use crate::common::clone_vec_copy;
use crate::common::find_min_xy;
use crate::common::lemma_argmin_xy_upto_in_range;
use crate::common::lemma_sort_spec_valid;
use crate::common::sort_range;
use crate::common::sort_spec;
use crate::common::valid_point;
use crate::common::valid_point_seq;
use vstd::prelude::*;

verus! {

pub struct Graham;

/// The candidates still to process (consumed from the back, the pivot first)
/// and the hull chain accepted so far.
#[derive(Clone, Debug)]
pub struct State {
    pub points: Vec<Point>,
    pub hull: Vec<Point>,
}

/// Mathematical model of a scan state.
pub struct GrahamModel {
    pub points: Seq<Point>,
    pub hull: Seq<Point>,
}

pub open spec fn graham_wf(m: GrahamModel) -> bool {
    &&& m.points.len() + m.hull.len() <= MAX_POINTS
    &&& forall|i: int| 0 <= i < m.points.len() ==> valid_point(#[trigger] m.points[i])
    &&& forall|i: int| 0 <= i < m.hull.len() ==> valid_point(#[trigger] m.hull[i])
}

/// The initial model: the pivot (the lexicographically smallest point) is
/// swapped to the back so it is processed first, and the remaining points are
/// sorted by polar angle about it, farther points first among collinear ones.
pub open spec fn graham_first(points: Seq<Point>) -> GrahamModel {
    if points.len() == 0 {
        GrahamModel { points, hull: Seq::empty() }
    } else {
        let i0 = argmin_xy(points);
        let p0 = points[i0];
        let last = points.len() - 1;
        let swapped = points.update(i0, points[last as int]).update(last as int, p0);
        GrahamModel {
            points: sort_spec(PointOrd::Around(p0), swapped.drop_last()).push(p0),
            hull: Seq::empty(),
        }
    }
}

pub open spec fn graham_next(m: GrahamModel) -> (GrahamModel, Action) {
    if m.points.len() == 0 {
        (m, Action::NoAction)
    } else {
        let st = step_model(m.points, m.hull, Turn::Ccw);
        (GrahamModel { points: st.left, hull: st.result }, st.action)
    }
}

impl Algo for Graham {
    type State = State;

    type Action = Action;

    type StateModel = GrahamModel;

    type ActionModel = Action;

    open spec fn st_model(s: &State) -> GrahamModel {
        GrahamModel { points: s.points@, hull: s.hull@ }
    }

    open spec fn act_model(a: &Action) -> Action {
        *a
    }

    open spec fn wf(m: GrahamModel) -> bool {
        graham_wf(m)
    }

    open spec fn measure(m: GrahamModel) -> nat {
        2 * m.points.len() + m.hull.len()
    }

    open spec fn first_model(points: Seq<Point>) -> GrahamModel {
        graham_first(points)
    }

    open spec fn next_model(m: GrahamModel) -> (GrahamModel, Action) {
        graham_next(m)
    }

    open spec fn is_final_model(m: GrahamModel) -> bool {
        m.points.len() == 0
    }

    fn first_state(points: Vec<Point>) -> (s: State) {
        let mut points = points;
        if points.len() == 0 {
            return State { points, hull: Vec::new() };
        }
        let i0 = find_min_xy(&points);
        proof {
            lemma_argmin_xy_upto_in_range(points@, points@.len() as int);
        }
        let last = points.len() - 1;
        let p0 = points[i0];
        let pl = points[last];
        points[i0] = pl;
        points[last] = p0;
        let ghost swapped = points@;
        sort_range(&mut points, 0, last, &PointOrd::Around(p0));
        proof {
            assert(swapped.take(0) =~= Seq::<Point>::empty());
            assert(swapped.subrange(0, last as int) =~= swapped.drop_last());
            assert(swapped.skip(last as int) =~= seq![p0]);
            assert(points@ =~= sort_spec(PointOrd::Around(p0), swapped.drop_last()).push(p0));
            lemma_sort_spec_valid(PointOrd::Around(p0), swapped.drop_last());
        }
        State { points, hull: Vec::new() }
    }

    fn next_state(state: State) -> (r: (State, Action)) {
        let State { mut points, mut hull } = state;
        if points.len() == 0 {
            return (State { points, hull }, Action::NoAction);
        }
        let a = step(&mut points, &mut hull, Turn::Ccw);
        (State { points, hull }, a)
    }

    fn is_final(state: &State) -> (b: bool) {
        state.points.len() == 0
    }

    fn clone_state(state: &State) -> (s: State) {
        State { points: clone_vec_copy(&state.points), hull: clone_vec_copy(&state.hull) }
    }
}

/// An empty input is final at once, with an empty hull.
pub proof fn lemma_graham_empty_input(points: Seq<Point>)
    requires
        points.len() == 0,
    ensures
        graham_first(points).points.len() == 0,
        graham_first(points).hull.len() == 0,
{
}

/// A one-point input terminates after a single accepting step, with that point
/// as the whole hull.
pub proof fn lemma_graham_one_point(points: Seq<Point>)
    requires
        points.len() == 1,
    ensures
        graham_next(graham_first(points)).0.points.len() == 0,
        graham_next(graham_first(points)).0.hull == seq![points[0]],
{
    let m = graham_first(points);
    assert(argmin_xy(points) == 0);
    let swapped = points.update(0, points[0]).update(0, points[0]);
    assert(swapped.drop_last() =~= Seq::<Point>::empty());
    assert(m.points =~= seq![points[0]]);
    let st = step_model(m.points, m.hull, Turn::Ccw);
    assert(st.left =~= Seq::<Point>::empty());
    assert(st.result =~= seq![points[0]]);
}

proof fn lemma_graham_step_contents(input: Seq<Point>, m: GrahamModel)
    requires
        forall|k: int| 0 <= k < m.points.len() ==> input.contains(#[trigger] m.points[k]),
        forall|k: int| 0 <= k < m.hull.len() ==> input.contains(#[trigger] m.hull[k]),
    ensures
        forall|k: int|
            0 <= k < graham_next(m).0.points.len() ==> input.contains(
                #[trigger] graham_next(m).0.points[k],
            ),
        forall|k: int|
            0 <= k < graham_next(m).0.hull.len() ==> input.contains(
                #[trigger] graham_next(m).0.hull[k],
            ),
{
    if m.points.len() > 0 {
        let st = step_model(m.points, m.hull, Turn::Ccw);
        assert forall|k: int| 0 <= k < st.left.len() implies input.contains(
            #[trigger] st.left[k],
        ) by {
            assert(st.left[k] == m.points[k]);
        }
        assert forall|k: int| 0 <= k < st.result.len() implies input.contains(
            #[trigger] st.result[k],
        ) by {
            if k < m.hull.len() {
                assert(st.result[k] == m.hull[k]);
            } else {
                assert(st.result[k] == m.points.last());
            }
        }
    }
}

proof fn lemma_graham_state_contents(
    points: Seq<Point>,
    states: Seq<GrahamModel>,
    actions: Seq<Action>,
    t: int,
)
    requires
        crate::algos::is_trace::<Graham>(points, states, actions),
        valid_point_seq(points),
        0 <= t < states.len(),
    ensures
        forall|k: int|
            0 <= k < states[t].points.len() ==> points.contains(#[trigger] states[t].points[k]),
        forall|k: int|
            0 <= k < states[t].hull.len() ==> points.contains(#[trigger] states[t].hull[k]),
    decreases t,
{
    if t == 0 {
        assert(states[0] == graham_first(points));
        if points.len() > 0 {
            let i0 = argmin_xy(points);
            lemma_argmin_xy_upto_in_range(points, points.len() as int);
            let last = points.len() - 1;
            let p0 = points[i0];
            let swapped = points.update(i0, points[last as int]).update(last as int, p0);
            assert forall|k: int| 0 <= k < swapped.len() implies points.contains(
                #[trigger] swapped[k],
            ) by {
                if k == last as int {
                    assert(swapped[k] == points[i0]);
                } else if k == i0 {
                    assert(swapped[k] == points[last as int] || swapped[k] == p0);
                } else {
                    assert(swapped[k] == points[k]);
                }
            }
            let pre = swapped.drop_last();
            assert(forall|k: int| 0 <= k < pre.len() ==> #[trigger] pre[k] == swapped[k]);
            assert forall|k: int| 0 <= k < pre.len() implies valid_point(#[trigger] pre[k]) by {
                assert(points.contains(pre[k]));
                let w = choose|w: int| 0 <= w < points.len() && points[w] == pre[k];
            }
            lemma_sort_spec_valid(PointOrd::Around(p0), pre);
            let sorted = sort_spec(PointOrd::Around(p0), pre);
            assert forall|k: int| 0 <= k < states[0].points.len() implies points.contains(
                #[trigger] states[0].points[k],
            ) by {
                if k < sorted.len() {
                    assert(states[0].points[k] == sorted[k]);
                    assert(pre.contains(sorted[k]));
                    let w = choose|w: int| 0 <= w < pre.len() && pre[w] == sorted[k];
                    assert(points.contains(swapped[w]));
                } else {
                    assert(states[0].points[k] == p0);
                }
            }
        }
    } else {
        lemma_graham_state_contents(points, states, actions, t - 1);
        assert(Graham::next_model(states[t - 1]) == (states[t], actions[t - 1]));
        lemma_graham_step_contents(points, states[t - 1]);
    }
}

/// Every vertex of the hull chain held at the end of a complete drive is one
/// of the input points, and no candidate is left unprocessed.
pub proof fn lemma_graham_trace_vertices(
    points: Seq<Point>,
    states: Seq<GrahamModel>,
    actions: Seq<Action>,
)
    requires
        crate::algos::is_trace::<Graham>(points, states, actions),
        valid_point_seq(points),
    ensures
        states[states.len() - 1].points.len() == 0,
        forall|k: int|
            0 <= k < states[states.len() - 1].hull.len() ==> points.contains(
                #[trigger] states[states.len() - 1].hull[k],
            ),
{
    lemma_graham_state_contents(points, states, actions, states.len() - 1);
}

} // verus!
