//! The closest-pair divide-and-conquer stepper with its own value types for
//! ranges, pairs and actions. It shares the transition system of
//! `closest_pair_dnc`: its states model to the same `CpModel`, and its
//! executable operations delegate to the same verified logic.

use crate::algos::closest_pair_dnc;
use crate::algos::closest_pair_dnc::CpModel;
use crate::algos::closest_pair_dnc::cp_first;
use crate::algos::closest_pair_dnc::cp_next;
use crate::algos::closest_pair_dnc::cp_wf;
use crate::algos::closest_pair_dnc::stack_weight;
use crate::algos::Algo;
use crate::common::Point;
use crate::common::clone_vec_copy;
use crate::common::inf_pair;
use crate::common::pair_sq;
use crate::common::valid_pair;
use crate::common::MAX_POINTS;
use vstd::prelude::*;

verus! {

/// A half-open index range over the points array.
#[derive(Copy, Clone, Debug, PartialEq, Eq, Structural)]
pub struct IndexBorders {
    pub l: usize,
    pub r: usize,
}

pub open spec fn ib_model(b: IndexBorders) -> crate::common::IndexBorders {
    crate::common::IndexBorders { l: b.l, r: b.r }
}

impl IndexBorders {
    /// Left half under floor-midpoint splitting.
    pub fn left(&self) -> (r: IndexBorders)
        requires
            self.l <= self.r <= MAX_POINTS,
        ensures
            ib_model(r) == crate::common::ib_left(ib_model(*self)),
    {
        IndexBorders { l: self.l, r: (self.l + self.r) / 2 }
    }

    /// Right half under floor-midpoint splitting.
    pub fn right(&self) -> (r: IndexBorders)
        requires
            self.l <= self.r <= MAX_POINTS,
        ensures
            ib_model(r) == crate::common::ib_right(ib_model(*self)),
    {
        IndexBorders { l: (self.l + self.r) / 2, r: self.r }
    }
}

/// A closed x-coordinate range, descriptive data carried by actions.
#[derive(Copy, Clone, Debug, PartialEq, Eq, Structural)]
pub struct HorBorders {
    pub l: i64,
    pub r: i64,
}

pub open spec fn hb_model(h: HorBorders) -> crate::common::HorBorders {
    crate::common::HorBorders { l: h.l, r: h.r }
}

/// An unordered candidate pair with the same infinite sentinel as
/// `common::Pair`.
#[derive(Copy, Clone, Debug, PartialEq, Eq, Structural)]
pub struct Pair {
    pub a: Point,
    pub b: Point,
}

pub open spec fn pair_model(p: Pair) -> crate::common::Pair {
    crate::common::Pair { a: p.a, b: p.b }
}

impl Pair {
    pub fn new(a: Point, b: Point) -> (r: Pair)
        ensures
            r == (Pair { a, b }),
    {
        Pair { a, b }
    }

    pub fn inf() -> (r: Pair)
        ensures
            pair_model(r) == inf_pair(),
    {
        Pair { a: Point { x: 0, y: 0 }, b: Point { x: i64::MAX, y: i64::MAX } }
    }

    /// Squared length of the pair; the sentinel reports `i128::MAX`.
    pub fn square_len(&self) -> (r: i128)
        requires
            valid_pair(pair_model(*self)),
        ensures
            r == pair_sq(pair_model(*self)),
    {
        let c = crate::common::Pair { a: self.a, b: self.b };
        c.square_len()
    }
}

/// What a popped frame still has to do.
#[derive(Copy, Clone, Debug, PartialEq, Eq, Structural)]
pub enum StackState {
    ToLeftDivide,
    ToRightDivide,
    ToConquer(i64),
}

pub open spec fn ss_model(s: StackState) -> closest_pair_dnc::StackState {
    match s {
        StackState::ToLeftDivide => closest_pair_dnc::StackState::ToLeftDivide,
        StackState::ToRightDivide => closest_pair_dnc::StackState::ToRightDivide,
        StackState::ToConquer(x) => closest_pair_dnc::StackState::ToConquer(x),
    }
}

/// Scratch points, accumulated sub-results, and the explicit recursion stack.
#[derive(Clone, Debug)]
pub struct State {
    pub points: Vec<Point>,
    pub result: Vec<Pair>,
    pub stack: Vec<(IndexBorders, StackState)>,
}

/// What the most recent step accomplished.
#[derive(Copy, Clone, Debug, PartialEq, Eq)]
pub enum Action {
    NoAction,
    Divide((HorBorders, i64)),
    Conquer((Pair, Pair, Pair, HorBorders, HorBorders)),
    PrimitiveSolve((HorBorders, Pair)),
}

pub open spec fn frame_model(f: (IndexBorders, StackState)) -> (
    crate::common::IndexBorders,
    closest_pair_dnc::StackState,
) {
    (ib_model(f.0), ss_model(f.1))
}

pub open spec fn act_model_spec(a: Action) -> closest_pair_dnc::Action {
    match a {
        Action::NoAction => closest_pair_dnc::Action::NoAction,
        Action::Divide((hb, x)) => closest_pair_dnc::Action::Divide((hb_model(hb), x)),
        Action::Conquer((p1, p2, p3, h1, h2)) => closest_pair_dnc::Action::Conquer(
            (pair_model(p1), pair_model(p2), pair_model(p3), hb_model(h1), hb_model(h2)),
        ),
        Action::PrimitiveSolve((hb, p)) => closest_pair_dnc::Action::PrimitiveSolve(
            (hb_model(hb), pair_model(p)),
        ),
    }
}

pub open spec fn tn_model(s: &State) -> CpModel {
    CpModel {
        points: s.points@,
        result: s.result@.map_values(|p: Pair| pair_model(p)),
        stack: s.stack@.map_values(|f: (IndexBorders, StackState)| frame_model(f)),
    }
}

fn to_cp_state(s: &State) -> (r: closest_pair_dnc::State)
    ensures
        (closest_pair_dnc::CpModel { points: r.points@, result: r.result@, stack: r.stack@ })
            == tn_model(s),
{
    let points = clone_vec_copy(&s.points);
    let mut result: Vec<crate::common::Pair> = Vec::new();
    let mut i: usize = 0;
    while i < s.result.len()
        invariant
            0 <= i <= s.result@.len(),
            result@ == s.result@.take(i as int).map_values(|p: Pair| pair_model(p)),
        decreases s.result@.len() - i,
    {
        let p = s.result[i];
        result.push(crate::common::Pair { a: p.a, b: p.b });
        proof {
            assert(s.result@.take(i + 1).drop_last() =~= s.result@.take(i as int));
            assert(result@ =~= s.result@.take(i + 1).map_values(|p: Pair| pair_model(p)));
        }
        i = i + 1;
    }
    let mut stack: Vec<(crate::common::IndexBorders, closest_pair_dnc::StackState)> = Vec::new();
    let mut j: usize = 0;
    while j < s.stack.len()
        invariant
            0 <= j <= s.stack@.len(),
            stack@ == s.stack@.take(j as int).map_values(
                |f: (IndexBorders, StackState)| frame_model(f),
            ),
        decreases s.stack@.len() - j,
    {
        let f = s.stack[j];
        let ss = match f.1 {
            StackState::ToLeftDivide => closest_pair_dnc::StackState::ToLeftDivide,
            StackState::ToRightDivide => closest_pair_dnc::StackState::ToRightDivide,
            StackState::ToConquer(x) => closest_pair_dnc::StackState::ToConquer(x),
        };
        stack.push((crate::common::IndexBorders { l: f.0.l, r: f.0.r }, ss));
        proof {
            assert(stack@ =~= s.stack@.take(j + 1).map_values(
                |f: (IndexBorders, StackState)| frame_model(f),
            ));
        }
        j = j + 1;
    }
    proof {
        assert(s.result@.take(s.result@.len() as int) =~= s.result@);
        assert(s.stack@.take(s.stack@.len() as int) =~= s.stack@);
    }
    closest_pair_dnc::State { points, result, stack }
}

fn from_cp_state(cs: closest_pair_dnc::State) -> (r: State)
    ensures
        tn_model(&r) == (closest_pair_dnc::CpModel {
            points: cs.points@,
            result: cs.result@,
            stack: cs.stack@,
        }),
{
    let mut result: Vec<Pair> = Vec::new();
    let mut i: usize = 0;
    while i < cs.result.len()
        invariant
            0 <= i <= cs.result@.len(),
            result@.len() == i,
            forall|k: int| 0 <= k < i ==> pair_model(#[trigger] result@[k]) == cs.result@[k],
        decreases cs.result@.len() - i,
    {
        let p = cs.result[i];
        result.push(Pair { a: p.a, b: p.b });
        i = i + 1;
    }
    let mut stack: Vec<(IndexBorders, StackState)> = Vec::new();
    let mut j: usize = 0;
    while j < cs.stack.len()
        invariant
            0 <= j <= cs.stack@.len(),
            stack@.len() == j,
            forall|k: int| 0 <= k < j ==> frame_model(#[trigger] stack@[k]) == cs.stack@[k],
        decreases cs.stack@.len() - j,
    {
        let f = cs.stack[j];
        let ss = match f.1 {
            closest_pair_dnc::StackState::ToLeftDivide => StackState::ToLeftDivide,
            closest_pair_dnc::StackState::ToRightDivide => StackState::ToRightDivide,
            closest_pair_dnc::StackState::ToConquer(x) => StackState::ToConquer(x),
        };
        stack.push((IndexBorders { l: f.0.l, r: f.0.r }, ss));
        j = j + 1;
    }
    let r = State { points: cs.points, result, stack };
    proof {
        assert(tn_model(&r).result =~= cs.result@);
        assert(tn_model(&r).stack =~= cs.stack@);
    }
    r
}

fn from_cp_action(ca: closest_pair_dnc::Action) -> (r: Action)
    ensures
        act_model_spec(r) == ca,
{
    match ca {
        closest_pair_dnc::Action::NoAction => Action::NoAction,
        closest_pair_dnc::Action::Divide((hb, x)) => Action::Divide(
            (HorBorders { l: hb.l, r: hb.r }, x),
        ),
        closest_pair_dnc::Action::Conquer((p1, p2, p3, h1, h2)) => Action::Conquer(
            (
                Pair { a: p1.a, b: p1.b },
                Pair { a: p2.a, b: p2.b },
                Pair { a: p3.a, b: p3.b },
                HorBorders { l: h1.l, r: h1.r },
                HorBorders { l: h2.l, r: h2.r },
            ),
        ),
        closest_pair_dnc::Action::PrimitiveSolve((hb, p)) => Action::PrimitiveSolve(
            (HorBorders { l: hb.l, r: hb.r }, Pair { a: p.a, b: p.b }),
        ),
    }
}

pub struct TwoNearest;

impl Algo for TwoNearest {
    type State = State;

    type Action = Action;

    type StateModel = CpModel;

    type ActionModel = closest_pair_dnc::Action;

    open spec fn st_model(s: &State) -> CpModel {
        tn_model(s)
    }

    open spec fn act_model(a: &Action) -> closest_pair_dnc::Action {
        act_model_spec(*a)
    }

    open spec fn wf(m: CpModel) -> bool {
        cp_wf(m)
    }

    open spec fn measure(m: CpModel) -> nat {
        stack_weight(m.stack)
    }

    open spec fn first_model(points: Seq<Point>) -> CpModel {
        cp_first(points)
    }

    open spec fn next_model(m: CpModel) -> (CpModel, closest_pair_dnc::Action) {
        cp_next(m)
    }

    open spec fn is_final_model(m: CpModel) -> bool {
        m.stack.len() == 0
    }

    fn first_state(points: Vec<Point>) -> (s: State) {
        let cs = closest_pair_dnc::ClosestPairDivideAndConquer::first_state(points);
        from_cp_state(cs)
    }

    fn next_state(state: State) -> (r: (State, Action)) {
        let cs = to_cp_state(&state);
        let stepped = closest_pair_dnc::ClosestPairDivideAndConquer::next_state(cs);
        let s2 = from_cp_state(stepped.0);
        let a2 = from_cp_action(stepped.1);
        (s2, a2)
    }

    fn is_final(state: &State) -> (b: bool)
    {
        proof {
            assert(tn_model(state).stack.len() == state.stack@.len());
        }
        state.stack.len() == 0
    }

    fn clone_state(state: &State) -> (s: State) {
        let r = State {
            points: clone_vec_copy(&state.points),
            result: clone_vec_copy(&state.result),
            stack: clone_vec_copy(&state.stack),
        };
        proof {
            assert(tn_model(&r).result =~= tn_model(state).result);
            assert(tn_model(&r).stack =~= tn_model(state).stack);
            assert(tn_model(&r) == tn_model(state));
        }
        r
    }
}

} // verus!
