//! The stepper abstraction: every algorithm builds an initial state from raw
//! points, advances one atomic step at a time, and reports termination.

pub mod closest_pair_dnc;
pub mod closest_pair_sl;
pub mod convex_hull_dnc;
pub mod graham;
pub mod graham_andrew;
pub mod graham_common;
pub mod shamos_hoey;
pub mod two_nearest;

use vstd::prelude::*;
use crate::common::Point;
use crate::common::valid_point_seq;

verus! {

/// The contract every algorithm implements. Each stepper carries, besides its
/// executable `State` and `Action` types, mathematical models of both and a
/// purely functional transition system over the models; the executable
/// operations are pinned to that transition system exactly, which makes every
/// trace deterministic.
pub trait Algo {
    type State;

    type Action;

    type StateModel;

    type ActionModel;

    /// Mathematical model of a state.
    spec fn st_model(s: &Self::State) -> Self::StateModel;

    /// Mathematical model of an action.
    spec fn act_model(a: &Self::Action) -> Self::ActionModel;

    /// Well-formedness of a state model; established by `first_state` and
    /// preserved by `next_state`.
    spec fn wf(m: Self::StateModel) -> bool;

    /// Upper bound on the number of steps still to run; strictly decreasing
    /// while the state is not final, so every drive terminates.
    spec fn measure(m: Self::StateModel) -> nat;

    /// The model of the initial state built from the given points.
    spec fn first_model(points: Seq<Point>) -> Self::StateModel;

    /// The transition function: the model of the next state together with the
    /// model of the action that produced it. On a final state it yields the
    /// state unchanged and a no-op action.
    spec fn next_model(m: Self::StateModel) -> (Self::StateModel, Self::ActionModel);

    /// True exactly when no further atomic step is possible.
    spec fn is_final_model(m: Self::StateModel) -> bool;

    /// Builds the initial internal representation from a raw point set; any
    /// finite set is accepted, including zero, one, or duplicate points.
    fn first_state(points: Vec<Point>) -> (s: Self::State)
        requires
            valid_point_seq(points@),
        ensures
            Self::st_model(&s) == Self::first_model(points@),
            Self::wf(Self::st_model(&s)),
    ;

    /// Advances exactly one atomic unit of work, as a pure function of the
    /// input state.
    fn next_state(state: Self::State) -> (r: (Self::State, Self::Action))
        requires
            Self::wf(Self::st_model(&state)),
        ensures
            Self::st_model(&r.0) == Self::next_model(Self::st_model(&state)).0,
            Self::act_model(&r.1) == Self::next_model(Self::st_model(&state)).1,
            Self::wf(Self::st_model(&r.0)),
            !Self::is_final_model(Self::st_model(&state)) ==> Self::measure(
                Self::st_model(&r.0),
            ) < Self::measure(Self::st_model(&state)),
    ;

    /// True exactly when no further atomic step is possible.
    fn is_final(state: &Self::State) -> (b: bool)
        requires
            Self::wf(Self::st_model(state)),
        ensures
            b == Self::is_final_model(Self::st_model(state)),
    ;

    /// A copy of a state with the same model; states are immutable snapshots,
    /// so a recorded trace can be replayed at arbitrary positions.
    fn clone_state(state: &Self::State) -> (s: Self::State)
        ensures
            Self::st_model(&s) == Self::st_model(state),
    ;
}

/// `states` and `actions` form the complete trace of `TAlgo` on `points`:
/// the first state comes from `first_model`, every following state and its
/// action from `next_model` applied to a non-final predecessor, and the last
/// state is final.
pub open spec fn is_trace<TAlgo: Algo>(
    points: Seq<Point>,
    states: Seq<TAlgo::StateModel>,
    actions: Seq<TAlgo::ActionModel>,
) -> bool {
    &&& states.len() == actions.len() + 1
    &&& states[0] == TAlgo::first_model(points)
    &&& forall|i: int| 0 <= i < actions.len() ==> !TAlgo::is_final_model(#[trigger] states[i])
    &&& forall|i: int|
        0 <= i < actions.len() ==> TAlgo::next_model(#[trigger] states[i]) == (
        states[i + 1],
        actions[i],
        )
    &&& TAlgo::is_final_model(states[states.len() - 1])
}

/// Drives a stepper from its initial state to termination, materializing the
/// full ordered sequence of states and of the actions that produced them.
pub fn all_states<TAlgo: Algo>(points: Vec<Point>) -> (r: (Vec<TAlgo::State>, Vec<TAlgo::Action>))
    requires
        valid_point_seq(points@),
    ensures
        is_trace::<TAlgo>(
            points@,
            r.0@.map_values(|s: TAlgo::State| TAlgo::st_model(&s)),
            r.1@.map_values(|a: TAlgo::Action| TAlgo::act_model(&a)),
        ),
        forall|i: int|
            0 <= i < r.0@.len() ==> TAlgo::wf(TAlgo::st_model(&#[trigger] r.0@[i])),
{
    let mut states: Vec<TAlgo::State> = Vec::new();
    let mut actions: Vec<TAlgo::Action> = Vec::new();
    let first = TAlgo::first_state(points);
    states.push(first);
    loop
        invariant_except_break
            states@.len() == actions@.len() + 1,
            TAlgo::st_model(&states@[0]) == TAlgo::first_model(points@),
            forall|i: int|
                0 <= i < actions@.len() ==> !TAlgo::is_final_model(
                    TAlgo::st_model(&#[trigger] states@[i]),
                ),
            forall|i: int|
                0 <= i < actions@.len() ==> TAlgo::next_model(
                    TAlgo::st_model(&#[trigger] states@[i]),
                ) == (TAlgo::st_model(&states@[i + 1]), TAlgo::act_model(&actions@[i])),
            forall|i: int|
                0 <= i < states@.len() ==> TAlgo::wf(TAlgo::st_model(&#[trigger] states@[i])),
        ensures
            states@.len() == actions@.len() + 1,
            TAlgo::st_model(&states@[0]) == TAlgo::first_model(points@),
            forall|i: int|
                0 <= i < actions@.len() ==> !TAlgo::is_final_model(
                    TAlgo::st_model(&#[trigger] states@[i]),
                ),
            forall|i: int|
                0 <= i < actions@.len() ==> TAlgo::next_model(
                    TAlgo::st_model(&#[trigger] states@[i]),
                ) == (TAlgo::st_model(&states@[i + 1]), TAlgo::act_model(&actions@[i])),
            forall|i: int|
                0 <= i < states@.len() ==> TAlgo::wf(TAlgo::st_model(&#[trigger] states@[i])),
            TAlgo::is_final_model(TAlgo::st_model(&states@[states@.len() - 1])),
        decreases TAlgo::measure(TAlgo::st_model(&states@[states@.len() - 1])),
    {
        let n = states.len();
        let fin = TAlgo::is_final(&states[n - 1]);
        if fin {
            break ;
        }
        let cur = TAlgo::clone_state(&states[n - 1]);
        let (next, act) = TAlgo::next_state(cur);
        states.push(next);
        actions.push(act);
    }
    proof {
        let sm = states@.map_values(|s: TAlgo::State| TAlgo::st_model(&s));
        let am = actions@.map_values(|a: TAlgo::Action| TAlgo::act_model(&a));
        assert(sm.len() == states@.len());
        assert(am.len() == actions@.len());
        assert forall|i: int| 0 <= i < am.len() implies !TAlgo::is_final_model(#[trigger] sm[i])
            && TAlgo::next_model(sm[i]) == (sm[i + 1], am[i]) by {
            assert(sm[i] == TAlgo::st_model(&states@[i]));
            assert(sm[i + 1] == TAlgo::st_model(&states@[i + 1]));
            assert(am[i] == TAlgo::act_model(&actions@[i]));
        }
        assert(is_trace::<TAlgo>(points@, sm, am));
    }
    (states, actions)
}

proof fn lemma_trace_prefix<TAlgo: Algo>(
    points: Seq<Point>,
    s1: Seq<TAlgo::StateModel>,
    a1: Seq<TAlgo::ActionModel>,
    s2: Seq<TAlgo::StateModel>,
    a2: Seq<TAlgo::ActionModel>,
    i: int,
)
    requires
        is_trace::<TAlgo>(points, s1, a1),
        is_trace::<TAlgo>(points, s2, a2),
        0 <= i < s1.len(),
        i < s2.len(),
    ensures
        s1[i] == s2[i],
    decreases i,
{
    if i > 0 {
        lemma_trace_prefix::<TAlgo>(points, s1, a1, s2, a2, i - 1);
        assert(TAlgo::next_model(s1[i - 1]) == (s1[i], a1[i - 1]));
        assert(TAlgo::next_model(s2[i - 1]) == (s2[i], a2[i - 1]));
    }
}

/// Determinism of a drive to termination: the same input points admit exactly
/// one complete trace, so re-running a stepper twice yields identical state
/// sequences and identical action sequences.
pub proof fn lemma_trace_unique<TAlgo: Algo>(
    points: Seq<Point>,
    s1: Seq<TAlgo::StateModel>,
    a1: Seq<TAlgo::ActionModel>,
    s2: Seq<TAlgo::StateModel>,
    a2: Seq<TAlgo::ActionModel>,
)
    requires
        is_trace::<TAlgo>(points, s1, a1),
        is_trace::<TAlgo>(points, s2, a2),
    ensures
        s1 == s2,
        a1 == a2,
{
    assert(a1.len() == a2.len()) by {
        if a1.len() < a2.len() {
            let i = a1.len() as int;
            lemma_trace_prefix::<TAlgo>(points, s1, a1, s2, a2, i);
            assert(TAlgo::is_final_model(s1[i]));
            assert(!TAlgo::is_final_model(s2[i]));
        } else if a2.len() < a1.len() {
            let i = a2.len() as int;
            lemma_trace_prefix::<TAlgo>(points, s1, a1, s2, a2, i);
            assert(TAlgo::is_final_model(s2[i]));
            assert(!TAlgo::is_final_model(s1[i]));
        }
    }
    assert forall|i: int| 0 <= i < s1.len() implies s1[i] == s2[i] by {
        lemma_trace_prefix::<TAlgo>(points, s1, a1, s2, a2, i);
    }
    assert(s1 =~= s2);
    assert forall|i: int| 0 <= i < a1.len() implies a1[i] == a2[i] by {
        lemma_trace_prefix::<TAlgo>(points, s1, a1, s2, a2, i);
        assert(TAlgo::next_model(s1[i]) == (s1[i + 1], a1[i]));
        assert(TAlgo::next_model(s2[i]) == (s2[i + 1], a2[i]));
    }
    assert(a1 =~= a2);
}

} // verus!
