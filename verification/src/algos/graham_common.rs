//! The stepping primitive shared by the Graham scan and Andrew's monotone
//! chain: accept or reject the next candidate point against the last accepted
//! edge using an orientation test.

use vstd::prelude::*;
use crate::common::Point;
use crate::common::rotation;
use crate::common::rotation_spec;
use crate::common::valid_point;

verus! {

/// What one accept/reject step accomplished, carrying the points involved.
#[derive(Copy, Clone, Debug, PartialEq, Eq)]
pub enum Action {
    NoAction,
    AcceptPoint(Point),
    RejectPoint(Point),
    AcceptLine((Point, Point, Point)),
    RejectLine((Point, Point, Point)),
}

/// Which orientation sign counts as a convex turn; the upper and lower chains
/// of Andrew's variant use opposite signs.
#[derive(Copy, Clone, Debug)]
pub enum Turn {
    Ccw,
    Cw,
}

pub open spec fn is_convex_spec(t: Turn, a: Point, b: Point, c: Point) -> bool {
    match t {
        Turn::Ccw => rotation_spec(a, b, c) > 0,
        Turn::Cw => rotation_spec(a, b, c) < 0,
    }
}

pub fn is_convex(t: Turn, a: &Point, b: &Point, c: &Point) -> (r: bool)
    requires
        valid_point(*a),
        valid_point(*b),
        valid_point(*c),
    ensures
        r == is_convex_spec(t, *a, *b, *c),
{
    let rot = rotation(a, b, c);
    match t {
        Turn::Ccw => rot > 0,
        Turn::Cw => rot < 0,
    }
}

/// Model of the outcome of one accept/reject step.
pub struct StepModel {
    pub left: Seq<Point>,
    pub result: Seq<Point>,
    pub action: Action,
}

/// One atomic step of the scan, with `left` the candidates still to process
/// (consumed from the back) and `result` the chain built so far: drop a
/// candidate that would close a non-convex wedge with the chain's start,
/// accept unconditionally until two chain points exist, pop the chain's tail
/// while the last three points make a non-convex turn (one pop per step), or
/// extend the chain by the candidate.
pub open spec fn step_model(left: Seq<Point>, result: Seq<Point>, t: Turn) -> StepModel
    recommends
        left.len() > 0,
{
    if result.len() > 0 && left.len() > 1 && !is_convex_spec(t, result[0], left.last(), left[0]) {
        StepModel { left: left.drop_last(), result, action: Action::RejectPoint(left.last()) }
    } else if result.len() < 2 {
        StepModel {
            left: left.drop_last(),
            result: result.push(left.last()),
            action: Action::AcceptPoint(left.last()),
        }
    } else if !is_convex_spec(
        t,
        result[result.len() - 2],
        result[result.len() - 1],
        left.last(),
    ) {
        StepModel {
            left,
            result: result.drop_last(),
            action: Action::RejectLine(
                (result[result.len() - 2], result[result.len() - 1], left.last()),
            ),
        }
    } else {
        StepModel {
            left: left.drop_last(),
            result: result.push(left.last()),
            action: Action::AcceptLine(
                (result[result.len() - 2], result[result.len() - 1], left.last()),
            ),
        }
    }
}

/// Executes one accept/reject step; the outcome is exactly `step_model`.
pub fn step(left: &mut Vec<Point>, result: &mut Vec<Point>, turn: Turn) -> (a: Action)
    requires
        old(left)@.len() > 0,
        old(left)@.len() + old(result)@.len() <= usize::MAX,
        forall|i: int| 0 <= i < old(left)@.len() ==> valid_point(#[trigger] old(left)@[i]),
        forall|i: int| 0 <= i < old(result)@.len() ==> valid_point(#[trigger] old(result)@[i]),
    ensures
        final(left)@ == step_model(old(left)@, old(result)@, turn).left,
        final(result)@ == step_model(old(left)@, old(result)@, turn).result,
        a == step_model(old(left)@, old(result)@, turn).action,
{
    let llen = left.len();
    let rlen = result.len();
    if rlen > 0 && llen > 1 && !is_convex(turn, &result[0], &left[llen - 1], &left[0]) {
        let p = left.pop().unwrap();
        Action::RejectPoint(p)
    } else if rlen < 2 {
        let p = left.pop().unwrap();
        result.push(p);
        Action::AcceptPoint(p)
    } else if !is_convex(turn, &result[rlen - 2], &result[rlen - 1], &left[llen - 1]) {
        let removed = result.pop().unwrap();
        Action::RejectLine((result[result.len() - 1], removed, left[llen - 1]))
    } else {
        let p = left.pop().unwrap();
        result.push(p);
        Action::AcceptLine((result[rlen - 2], result[rlen - 1], p))
    }
}

} // verus!
