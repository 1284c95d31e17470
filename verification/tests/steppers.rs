use gav::algos::all_states;
use gav::algos::convex_hull_dnc::overflowing_range;
use gav::algos::closest_pair_dnc::ClosestPairDivideAndConquer;
use gav::algos::closest_pair_sl::ClosestPairSweepLine;
use gav::algos::convex_hull_dnc::ConvexHullDivideAndConquer;
use gav::algos::graham::Graham;
use gav::algos::graham_andrew::GrahamAndrew;
use gav::algos::shamos_hoey::{intersect_seg, Segment, ShamosHoey};
use gav::algos::two_nearest::TwoNearest;
use gav::algos::Algo;
use gav::common::{Pair, Point};

fn p(x: i64, y: i64) -> Point {
    Point::new(x, y)
}

fn sq(a: Point, b: Point) -> i128 {
    let dx = (a.x - b.x) as i128;
    let dy = (a.y - b.y) as i128;
    dx * dx + dy * dy
}

/// Reference answer: minimum squared distance over all point pairs.
fn brute_force_min(points: &[Point]) -> i128 {
    let mut best = i128::MAX;
    for i in 0..points.len() {
        for j in 0..i {
            best = best.min(sq(points[i], points[j]));
        }
    }
    best
}

fn vertex_set(mut v: Vec<Point>) -> Vec<Point> {
    v.sort_by(|a, b| (a.x, a.y).cmp(&(b.x, b.y)));
    v.dedup();
    v
}

fn pair_endpoints(pr: &Pair) -> Vec<Point> {
    vertex_set(vec![pr.a, pr.b])
}

fn dnc_closest(points: Vec<Point>) -> Pair {
    let (states, _) = all_states::<ClosestPairDivideAndConquer>(points);
    let last = states.last().unwrap();
    assert!(last.stack.is_empty());
    *last.result.last().unwrap()
}

fn sl_closest(points: Vec<Point>) -> Pair {
    let (states, _) = all_states::<ClosestPairSweepLine>(points);
    states.last().unwrap().nearest
}

fn tn_closest(points: Vec<Point>) -> gav::algos::two_nearest::Pair {
    let (states, _) = all_states::<TwoNearest>(points);
    *states.last().unwrap().result.last().unwrap()
}

fn dnc_hull(points: Vec<Point>) -> Vec<Point> {
    let (states, _) = all_states::<ConvexHullDivideAndConquer>(points);
    let last = states.last().unwrap();
    assert!(last.stack.is_empty());
    vertex_set(last.result.last().unwrap().clone())
}

fn graham_hull(points: Vec<Point>) -> Vec<Point> {
    let (states, _) = all_states::<Graham>(points);
    vertex_set(states.last().unwrap().hull.clone())
}

fn andrew_hull(points: Vec<Point>) -> Vec<Point> {
    let (states, _) = all_states::<GrahamAndrew>(points);
    let last = states.last().unwrap();
    let mut both = last.upper.clone();
    both.extend(last.lower.iter().cloned());
    vertex_set(both)
}

/// Drives the intersection sweep over an explicit segment list.
fn shamos_on_segments(segments: Vec<Segment>) -> Option<(Segment, Segment)> {
    let mut state = gav::algos::shamos_hoey::first_state_segments(segments);
    while !ShamosHoey::is_final(&state) {
        let (next, _action) = ShamosHoey::next_state(state);
        state = next;
    }
    state.result
}

/// Reference answer: pairwise intersection check.
fn any_intersection(segments: &[Segment]) -> bool {
    for i in 0..segments.len() {
        for j in 0..i {
            if intersect_seg(&segments[i], &segments[j]) {
                return true;
            }
        }
    }
    false
}

const SCENARIO: [(i64, i64); 5] = [(0, 0), (1, 1), (2, 2), (0, 2), (2, 0)];

fn scenario_points() -> Vec<Point> {
    SCENARIO.iter().map(|&(x, y)| p(x, y)).collect()
}

/// The centre point sits at squared distance 2 from every corner, so any
/// reported pair must join the centre with one of the corners.
fn is_scenario_minimum(best: &Pair) -> bool {
    let ends = pair_endpoints(best);
    ends.contains(&p(1, 1)) && ends.len() == 2 && sq(ends[0], ends[1]) == 2
}

#[test]
fn closest_pair_dnc_scenario() {
    let best = dnc_closest(scenario_points());
    assert_eq!(best.square_len(), 2);
    assert!(is_scenario_minimum(&best));
}

#[test]
fn closest_pair_sl_scenario() {
    let best = sl_closest(scenario_points());
    assert_eq!(best.square_len(), 2);
    assert!(is_scenario_minimum(&best));
}

#[test]
fn two_nearest_scenario() {
    let best = tn_closest(scenario_points());
    assert_eq!(best.square_len(), 2);
}

#[test]
fn convex_hull_scenario() {
    let expected = vertex_set(vec![p(0, 0), p(2, 0), p(2, 2), p(0, 2)]);
    assert_eq!(dnc_hull(scenario_points()), expected);
    assert_eq!(graham_hull(scenario_points()), expected);
    assert_eq!(andrew_hull(scenario_points()), expected);
}

#[test]
fn closest_pair_matches_brute_force() {
    let points: Vec<Point> = vec![
        (13, 7), (2, 19), (8, 3), (21, 14), (5, 5), (17, 2), (9, 16), (1, 1), (24, 24), (12, 12),
        (6, 18), (20, 4), (3, 11), (15, 22), (11, 9),
    ]
        .into_iter()
        .map(|(x, y)| p(x, y))
        .collect();
    let expected = brute_force_min(&points);
    assert_eq!(dnc_closest(points.clone()).square_len(), expected);
    assert_eq!(sl_closest(points.clone()).square_len(), expected);
    assert_eq!(tn_closest(points).square_len(), expected);
}

#[test]
fn closest_pair_duplicate_points() {
    let points = vec![p(4, 4), p(9, 1), p(4, 4), p(0, 7)];
    assert_eq!(dnc_closest(points.clone()).square_len(), 0);
    assert_eq!(sl_closest(points).square_len(), 0);
}

#[test]
fn hull_algorithms_agree() {
    // points in general position: a point midway along a hull edge is kept by
    // the brute-force hull but rejected by the scans
    let sets: Vec<Vec<Point>> = vec![
        vec![p(0, 0), p(4, 0), p(4, 4), p(0, 4), p(2, 2), p(1, 3), p(3, 1)],
        vec![p(0, 0), p(10, 1), p(5, 8), p(3, 3), p(7, 2), p(1, 6), p(9, 7), p(4, 1)],
        vec![
            (13, 7), (2, 19), (8, 3), (21, 14), (5, 5), (17, 2), (9, 16), (1, 1), (24, 24),
            (12, 12), (6, 18), (20, 4), (3, 11), (15, 22), (11, 9),
        ]
            .into_iter()
            .map(|(x, y)| p(x, y))
            .collect(),
    ];
    for points in sets {
        let d = dnc_hull(points.clone());
        let g = graham_hull(points.clone());
        let a = andrew_hull(points.clone());
        assert_eq!(d, g);
        assert_eq!(g, a);
    }
}

#[test]
fn hull_collinear_points() {
    let points = vec![p(0, 0), p(1, 1), p(2, 2), p(3, 3)];
    let g = graham_hull(points.clone());
    let a = andrew_hull(points.clone());
    // a degenerate hull still consists of input points and spans the extremes
    assert!(g.contains(&p(0, 0)) && g.contains(&p(3, 3)));
    assert!(a.contains(&p(0, 0)) && a.contains(&p(3, 3)));
    for v in g.iter().chain(a.iter()) {
        assert!(points.contains(v));
    }
}

#[test]
fn shamos_hoey_crossing_segments() {
    let segments = vec![Segment::new(p(0, 0), p(2, 2)), Segment::new(p(0, 2), p(2, 0))];
    let reported = shamos_on_segments(segments.clone());
    assert!(reported.is_some());
    let (s1, s2) = reported.unwrap();
    assert!(segments.contains(&s1) && segments.contains(&s2));
    assert_ne!(s1, s2);
    assert!(intersect_seg(&s1, &s2));
}

#[test]
fn shamos_hoey_disjoint_segments() {
    let segments = vec![Segment::new(p(0, 0), p(1, 0)), Segment::new(p(2, 0), p(3, 0))];
    assert_eq!(shamos_on_segments(segments), None);
}

#[test]
fn shamos_hoey_matches_pairwise_check() {
    let sets: Vec<Vec<Segment>> = vec![
        vec![
            Segment::new(p(0, 0), p(4, 1)),
            Segment::new(p(1, 5), p(5, 6)),
            Segment::new(p(2, -3), p(3, 9)),
        ],
        vec![
            Segment::new(p(0, 0), p(2, 1)),
            Segment::new(p(0, 3), p(2, 4)),
            Segment::new(p(0, 6), p(2, 7)),
        ],
        vec![
            Segment::new(p(0, 10), p(10, 0)),
            Segment::new(p(0, 0), p(10, 10)),
            Segment::new(p(20, 20), p(30, 20)),
        ],
    ];
    for segments in sets {
        let reported = shamos_on_segments(segments.clone());
        assert_eq!(reported.is_some(), any_intersection(&segments));
    }
}

#[test]
fn shamos_hoey_from_points() {
    // consecutive x-sorted points are paired into segments; an odd point is
    // left unpaired, and with a single segment there is nothing to intersect
    let (states, _) = all_states::<ShamosHoey>(vec![p(0, 0), p(1, 1), p(2, 0)]);
    let last = states.last().unwrap();
    assert_eq!(last.segments.len(), 1);
    assert_eq!(last.result, None);
}

#[test]
fn empty_input_is_trivial() {
    assert!(all_states::<ClosestPairDivideAndConquer>(vec![]).0.last().unwrap().result.is_empty());
    assert_eq!(all_states::<ClosestPairSweepLine>(vec![]).0.last().unwrap().nearest, Pair::inf());
    assert!(all_states::<ConvexHullDivideAndConquer>(vec![]).0.last().unwrap().result.is_empty());
    assert!(all_states::<Graham>(vec![]).0.last().unwrap().hull.is_empty());
    let (a_states, _) = all_states::<GrahamAndrew>(vec![]);
    assert!(a_states.last().unwrap().upper.is_empty());
    assert!(all_states::<ShamosHoey>(vec![]).0.last().unwrap().result.is_none());
    assert!(all_states::<TwoNearest>(vec![]).0.last().unwrap().result.is_empty());
}

#[test]
fn one_point_input_is_trivial() {
    let one = vec![p(5, 5)];
    let (states, actions) = all_states::<ClosestPairDivideAndConquer>(one.clone());
    assert_eq!(actions.len(), 1);
    assert_eq!(*states.last().unwrap().result.last().unwrap(), Pair::inf());
    assert_eq!(sl_closest(one.clone()), Pair::inf());
    assert_eq!(graham_hull(one.clone()), vec![p(5, 5)]);
    assert_eq!(andrew_hull(one.clone()), vec![p(5, 5)]);
    assert!(all_states::<ShamosHoey>(one.clone()).0.last().unwrap().result.is_none());
    let (h_states, h_actions) = all_states::<ConvexHullDivideAndConquer>(one);
    assert_eq!(h_actions.len(), 1);
    assert!(h_states.last().unwrap().result.last().unwrap().is_empty());
}

#[test]
fn rerun_yields_identical_trace() {
    let points = scenario_points();
    let (s1, a1) = all_states::<ClosestPairDivideAndConquer>(points.clone());
    let (s2, a2) = all_states::<ClosestPairDivideAndConquer>(points.clone());
    assert_eq!(a1, a2);
    assert_eq!(s1.len(), s2.len());
    for (x, y) in s1.iter().zip(s2.iter()) {
        assert_eq!(x.points, y.points);
        assert_eq!(x.result, y.result);
        assert_eq!(x.stack, y.stack);
    }
    let (g1, ga1) = all_states::<Graham>(points.clone());
    let (g2, ga2) = all_states::<Graham>(points);
    assert_eq!(ga1, ga2);
    assert_eq!(g1.len(), g2.len());
    for (x, y) in g1.iter().zip(g2.iter()) {
        assert_eq!(x.points, y.points);
        assert_eq!(x.hull, y.hull);
    }
}

#[test]
fn rerun_yields_identical_sweep_traces() {
    let points = vec![p(3, 9), p(1, 2), p(7, 4), p(5, 5), p(2, 8), p(6, 1)];
    let (s1, a1) = all_states::<ClosestPairSweepLine>(points.clone());
    let (s2, a2) = all_states::<ClosestPairSweepLine>(points.clone());
    assert_eq!(a1, a2);
    assert_eq!(s1.len(), s2.len());
    for (x, y) in s1.iter().zip(s2.iter()) {
        assert_eq!(x.points, y.points);
        assert_eq!(x.current_set, y.current_set);
        assert_eq!(x.left_index, y.left_index);
        assert_eq!(x.right_index, y.right_index);
        assert_eq!(x.nearest, y.nearest);
    }
    let (t1, b1) = all_states::<ShamosHoey>(points.clone());
    let (t2, b2) = all_states::<ShamosHoey>(points);
    assert_eq!(b1, b2);
    assert_eq!(t1.len(), t2.len());
    for (x, y) in t1.iter().zip(t2.iter()) {
        assert_eq!(x.segments, y.segments);
        assert_eq!(x.cur_segments, y.cur_segments);
        assert_eq!(x.events, y.events);
        assert_eq!(x.result, y.result);
    }
}

#[test]
fn graham_sorts_by_distance() {
    let state = Graham::first_state(vec![
        Point::new(1, 1),
        Point::new(1, 2),
        Point::new(2, 1),
        Point::new(1, 3),
        Point::new(3, 1),
    ]);
    assert_eq!(
        vec![
            Point::new(1, 3),
            Point::new(1, 2),
            Point::new(3, 1),
            Point::new(2, 1),
            Point::new(1, 1),
        ],
        state.points
    );
}

#[test]
fn overflowing_range_wraps() {
    assert_eq!(overflowing_range(3, 1, 5), vec![3, 4, 0, 1]);
    assert_eq!(overflowing_range(1, 3, 5), vec![1, 2, 3]);
    assert_eq!(overflowing_range(2, 2, 5), vec![2]);
}
