//! Andrew's monotone-chain variant of the Graham scan: points sorted by x,
//! upper and lower chains built independently and concatenated.

pub use crate::algos::graham_common::Action;
use crate::algos::graham_common::Turn;
use crate::algos::graham_common::step;
use crate::algos::graham_common::step_model;
use crate::algos::Algo;
use crate::common::Point;
use crate::common::PointOrd;
use crate::common::MAX_POINTS;
use crate::common::clone_vec_copy;
use crate::common::lemma_sort_spec_valid;
use crate::common::sort_points;
use crate::common::sort_spec;
use crate::common::valid_point;
use crate::common::valid_point_seq;
use vstd::prelude::*;

verus! {

pub struct GrahamAndrew;

/// Candidates still to process for each chain (consumed from the back, so in
/// ascending x) and the two chains built so far.
#[derive(Clone, Debug)]
pub struct State {
    pub left_upper: Vec<Point>,
    pub left_lower: Vec<Point>,
    pub upper: Vec<Point>,
    pub lower: Vec<Point>,
}

/// Mathematical model of a monotone-chain state.
pub struct GrahamAndrewModel {
    pub left_upper: Seq<Point>,
    pub left_lower: Seq<Point>,
    pub upper: Seq<Point>,
    pub lower: Seq<Point>,
}

pub open spec fn andrew_wf(m: GrahamAndrewModel) -> bool {
    &&& m.left_upper.len() + m.upper.len() <= MAX_POINTS
    &&& m.left_lower.len() + m.lower.len() <= MAX_POINTS
    &&& forall|i: int| 0 <= i < m.left_upper.len() ==> valid_point(#[trigger] m.left_upper[i])
    &&& forall|i: int| 0 <= i < m.left_lower.len() ==> valid_point(#[trigger] m.left_lower[i])
    &&& forall|i: int| 0 <= i < m.upper.len() ==> valid_point(#[trigger] m.upper[i])
    &&& forall|i: int| 0 <= i < m.lower.len() ==> valid_point(#[trigger] m.lower[i])
}

/// The initial model: both candidate lists hold the points sorted by
/// descending x, so popping from the back walks them in ascending x.
pub open spec fn andrew_first(points: Seq<Point>) -> GrahamAndrewModel {
    let sorted = sort_spec(PointOrd::XDesc, points);
    GrahamAndrewModel {
        left_upper: sorted,
        left_lower: sorted,
        upper: Seq::empty(),
        lower: Seq::empty(),
    }
}

/// The transition: the upper chain advances until its candidates are
/// exhausted, then the lower chain.
pub open spec fn andrew_next(m: GrahamAndrewModel) -> (GrahamAndrewModel, Action) {
    if m.left_upper.len() > 0 {
        let st = step_model(m.left_upper, m.upper, Turn::Cw);
        (GrahamAndrewModel { left_upper: st.left, upper: st.result, ..m }, st.action)
    } else if m.left_lower.len() > 0 {
        let st = step_model(m.left_lower, m.lower, Turn::Ccw);
        (GrahamAndrewModel { left_lower: st.left, lower: st.result, ..m }, st.action)
    } else {
        (m, Action::NoAction)
    }
}

impl Algo for GrahamAndrew {
    type State = State;

    type Action = Action;

    type StateModel = GrahamAndrewModel;

    type ActionModel = Action;

    open spec fn st_model(s: &State) -> GrahamAndrewModel {
        GrahamAndrewModel {
            left_upper: s.left_upper@,
            left_lower: s.left_lower@,
            upper: s.upper@,
            lower: s.lower@,
        }
    }

    open spec fn act_model(a: &Action) -> Action {
        *a
    }

    open spec fn wf(m: GrahamAndrewModel) -> bool {
        andrew_wf(m)
    }

    open spec fn measure(m: GrahamAndrewModel) -> nat {
        2 * (m.left_upper.len() + m.left_lower.len()) + m.upper.len() + m.lower.len()
    }

    open spec fn first_model(points: Seq<Point>) -> GrahamAndrewModel {
        andrew_first(points)
    }

    open spec fn next_model(m: GrahamAndrewModel) -> (GrahamAndrewModel, Action) {
        andrew_next(m)
    }

    open spec fn is_final_model(m: GrahamAndrewModel) -> bool {
        m.left_upper.len() == 0 && m.left_lower.len() == 0
    }

    fn first_state(points: Vec<Point>) -> (s: State) {
        let sorted = sort_points(&points, &PointOrd::XDesc);
        proof {
            lemma_sort_spec_valid(PointOrd::XDesc, points@);
        }
        let copy = clone_vec_copy(&sorted);
        State { left_upper: sorted, left_lower: copy, upper: Vec::new(), lower: Vec::new() }
    }

    fn next_state(state: State) -> (r: (State, Action)) {
        let State { mut left_upper, mut left_lower, mut upper, mut lower } = state;
        if left_upper.len() > 0 {
            let a = step(&mut left_upper, &mut upper, Turn::Cw);
            (State { left_upper, left_lower, upper, lower }, a)
        } else if left_lower.len() > 0 {
            let a = step(&mut left_lower, &mut lower, Turn::Ccw);
            (State { left_upper, left_lower, upper, lower }, a)
        } else {
            (State { left_upper, left_lower, upper, lower }, Action::NoAction)
        }
    }

    fn is_final(state: &State) -> (b: bool) {
        state.left_upper.len() == 0 && state.left_lower.len() == 0
    }

    fn clone_state(state: &State) -> (s: State) {
        State {
            left_upper: clone_vec_copy(&state.left_upper),
            left_lower: clone_vec_copy(&state.left_lower),
            upper: clone_vec_copy(&state.upper),
            lower: clone_vec_copy(&state.lower),
        }
    }
}

/// An empty input is final at once, with empty chains.
pub proof fn lemma_andrew_empty_input(points: Seq<Point>)
    requires
        points.len() == 0,
    ensures
        andrew_first(points).left_upper.len() == 0,
        andrew_first(points).left_lower.len() == 0,
        andrew_first(points).upper.len() == 0,
        andrew_first(points).lower.len() == 0,
{
}

proof fn lemma_andrew_step_contents(input: Seq<Point>, m: GrahamAndrewModel)
    requires
        forall|k: int| 0 <= k < m.left_upper.len() ==> input.contains(#[trigger] m.left_upper[k]),
        forall|k: int| 0 <= k < m.left_lower.len() ==> input.contains(#[trigger] m.left_lower[k]),
        forall|k: int| 0 <= k < m.upper.len() ==> input.contains(#[trigger] m.upper[k]),
        forall|k: int| 0 <= k < m.lower.len() ==> input.contains(#[trigger] m.lower[k]),
    ensures
        ({
            let m2 = andrew_next(m).0;
            &&& forall|k: int|
                0 <= k < m2.left_upper.len() ==> input.contains(#[trigger] m2.left_upper[k])
            &&& forall|k: int|
                0 <= k < m2.left_lower.len() ==> input.contains(#[trigger] m2.left_lower[k])
            &&& forall|k: int| 0 <= k < m2.upper.len() ==> input.contains(#[trigger] m2.upper[k])
            &&& forall|k: int| 0 <= k < m2.lower.len() ==> input.contains(#[trigger] m2.lower[k])
        }),
{
    let m2 = andrew_next(m).0;
    if m.left_upper.len() > 0 {
        let st = step_model(m.left_upper, m.upper, Turn::Cw);
        assert forall|k: int| 0 <= k < st.left.len() implies input.contains(
            #[trigger] st.left[k],
        ) by {
            assert(st.left[k] == m.left_upper[k]);
        }
        assert forall|k: int| 0 <= k < st.result.len() implies input.contains(
            #[trigger] st.result[k],
        ) by {
            if k < m.upper.len() {
                assert(st.result[k] == m.upper[k]);
            } else {
                assert(st.result[k] == m.left_upper.last());
            }
        }
    } else if m.left_lower.len() > 0 {
        let st = step_model(m.left_lower, m.lower, Turn::Ccw);
        assert forall|k: int| 0 <= k < st.left.len() implies input.contains(
            #[trigger] st.left[k],
        ) by {
            assert(st.left[k] == m.left_lower[k]);
        }
        assert forall|k: int| 0 <= k < st.result.len() implies input.contains(
            #[trigger] st.result[k],
        ) by {
            if k < m.lower.len() {
                assert(st.result[k] == m.lower[k]);
            } else {
                assert(st.result[k] == m.left_lower.last());
            }
        }
    }
}

proof fn lemma_andrew_state_contents(
    points: Seq<Point>,
    states: Seq<GrahamAndrewModel>,
    actions: Seq<Action>,
    t: int,
)
    requires
        crate::algos::is_trace::<GrahamAndrew>(points, states, actions),
        valid_point_seq(points),
        0 <= t < states.len(),
    ensures
        forall|k: int|
            0 <= k < states[t].left_upper.len() ==> points.contains(
                #[trigger] states[t].left_upper[k],
            ),
        forall|k: int|
            0 <= k < states[t].left_lower.len() ==> points.contains(
                #[trigger] states[t].left_lower[k],
            ),
        forall|k: int|
            0 <= k < states[t].upper.len() ==> points.contains(#[trigger] states[t].upper[k]),
        forall|k: int|
            0 <= k < states[t].lower.len() ==> points.contains(#[trigger] states[t].lower[k]),
    decreases t,
{
    if t == 0 {
        assert(states[0] == andrew_first(points));
        lemma_sort_spec_valid(PointOrd::XDesc, points);
        let sorted = sort_spec(PointOrd::XDesc, points);
        assert forall|k: int| 0 <= k < sorted.len() implies points.contains(
            #[trigger] sorted[k],
        ) by {}
    } else {
        lemma_andrew_state_contents(points, states, actions, t - 1);
        assert(GrahamAndrew::next_model(states[t - 1]) == (states[t], actions[t - 1]));
        lemma_andrew_step_contents(points, states[t - 1]);
    }
}

/// Every vertex of the two chains held at the end of a complete drive is one
/// of the input points, and no candidate is left unprocessed.
pub proof fn lemma_andrew_trace_vertices(
    points: Seq<Point>,
    states: Seq<GrahamAndrewModel>,
    actions: Seq<Action>,
)
    requires
        crate::algos::is_trace::<GrahamAndrew>(points, states, actions),
        valid_point_seq(points),
    ensures
        states[states.len() - 1].left_upper.len() == 0,
        states[states.len() - 1].left_lower.len() == 0,
        forall|k: int|
            0 <= k < states[states.len() - 1].upper.len() ==> points.contains(
                #[trigger] states[states.len() - 1].upper[k],
            ),
        forall|k: int|
            0 <= k < states[states.len() - 1].lower.len() ==> points.contains(
                #[trigger] states[states.len() - 1].lower[k],
            ),
{
    lemma_andrew_state_contents(points, states, actions, states.len() - 1);
}

} // verus!
