use road_plan::continuation::{insert_checked, lateral_offset, road_starts};
use road_plan::geometry::Geometry;
use road_plan::intent::apply_intent;
use road_plan::model::{
    BuiltLaneStrokeRef, BuiltStrokes, ContinuationMode, Intent, LaneStroke, LaneStrokeRef,
    PlanDelta, PlanStep, SelectableStrokeRef, Settings,
};
use road_plan::move_selection::{
    find_alignments, order_alignments, Alignment, Connector, ConnectorRef, MovedStroke,
};

#[derive(Clone, Copy, Debug, PartialEq)]
struct Node {
    pos: (f64, f64),
    dir: (f64, f64),
}

struct Flat;

fn sub(a: (f64, f64), b: (f64, f64)) -> (f64, f64) {
    (a.0 - b.0, a.1 - b.1)
}
fn add(a: (f64, f64), b: (f64, f64)) -> (f64, f64) {
    (a.0 + b.0, a.1 + b.1)
}
fn scale(a: (f64, f64), k: f64) -> (f64, f64) {
    (a.0 * k, a.1 * k)
}
fn dot(a: (f64, f64), b: (f64, f64)) -> f64 {
    a.0 * b.0 + a.1 * b.1
}
fn norm(a: (f64, f64)) -> f64 {
    dot(a, a).sqrt()
}
fn unit(a: (f64, f64)) -> (f64, f64) {
    scale(a, 1.0 / norm(a))
}
fn right(d: (f64, f64)) -> (f64, f64) {
    (d.1, -d.0)
}
fn dist(a: (f64, f64), b: (f64, f64)) -> f64 {
    norm(sub(a, b))
}
fn cumulative(nodes: &Vec<Node>) -> Vec<f64> {
    let mut c = vec![0.0];
    for w in nodes.windows(2) {
        let last = *c.last().unwrap();
        c.push(last + dist(w[0].pos, w[1].pos));
    }
    c
}

impl Geometry for Flat {
    type Node = Node;
    type Point = (f64, f64);
    type Vector = (f64, f64);
    type Scalar = f64;

    fn too_close(a: (f64, f64), b: (f64, f64)) -> bool {
        dist(a, b) < 0.1
    }
    fn continued_node(previous: (f64, f64), next: (f64, f64), terminal: Node, mode: ContinuationMode) -> Node {
        let travel = unit(sub(next, previous));
        let dir = match mode {
            ContinuationMode::Append => travel,
            ContinuationMode::Prepend => scale(travel, -1.0),
        };
        let rel = sub(terminal.pos, previous);
        let (a, b) = (dot(rel, terminal.dir), dot(rel, right(terminal.dir)));
        Node { pos: add(next, add(scale(dir, a), scale(right(dir), b))), dir }
    }
    fn well_formed(nodes: &Vec<Node>) -> bool {
        nodes.windows(2).all(|w| dist(w[0].pos, w[1].pos) > 0.1)
    }
    fn road_node(start: (f64, f64), toward: (f64, f64), offset: u64, forward: bool) -> Node {
        let d = unit(sub(toward, start));
        let o = scale(right(d), offset as f64);
        if forward {
            Node { pos: add(start, o), dir: d }
        } else {
            Node { pos: sub(start, o), dir: scale(d, -1.0) }
        }
    }
    fn zero() -> f64 {
        0.0
    }
    fn length(nodes: &Vec<Node>) -> f64 {
        *cumulative(nodes).last().unwrap()
    }
    fn subsection(nodes: &Vec<Node>, start: f64, end: f64) -> Option<Vec<Node>> {
        if end - start < 0.1 {
            return None;
        }
        let mut r = vec![Node { pos: Self::along(nodes, start), dir: Self::direction_along(nodes, start) }];
        let c = cumulative(nodes);
        for (i, n) in nodes.iter().enumerate() {
            if c[i] > start + 0.1 && c[i] < end - 0.1 {
                r.push(*n);
            }
        }
        r.push(Node { pos: Self::along(nodes, end), dir: Self::direction_along(nodes, end) });
        Some(r)
    }
    fn offset_node(node: Node, distance: u64) -> Node {
        Node { pos: add(node.pos, scale(right(node.dir), distance as f64)), dir: node.dir }
    }
    fn strokes_roughly_within(a: &Vec<Node>, b: &Vec<Node>, tolerance_tenths: u64) -> bool {
        a.len() == b.len() && a.iter().zip(b.iter()).all(|(x, y)| dist(x.pos, y.pos) <= tolerance_tenths as f64 / 10.0)
    }
    fn along(nodes: &Vec<Node>, t: f64) -> (f64, f64) {
        let c = cumulative(nodes);
        for i in 1..nodes.len() {
            if t <= c[i] || i == nodes.len() - 1 {
                let d = unit(sub(nodes[i].pos, nodes[i - 1].pos));
                return add(nodes[i - 1].pos, scale(d, t - c[i - 1]));
            }
        }
        nodes[0].pos
    }
    fn direction_along(nodes: &Vec<Node>, t: f64) -> (f64, f64) {
        let c = cumulative(nodes);
        for i in 1..nodes.len() {
            if t <= c[i] || i == nodes.len() - 1 {
                return unit(sub(nodes[i].pos, nodes[i - 1].pos));
            }
        }
        nodes[0].dir
    }
    fn project(nodes: &Vec<Node>, p: (f64, f64)) -> Option<f64> {
        let c = cumulative(nodes);
        for i in 1..nodes.len() {
            let d = unit(sub(nodes[i].pos, nodes[i - 1].pos));
            let t = dot(sub(p, nodes[i - 1].pos), d);
            if t >= -0.001 && t <= c[i] - c[i - 1] + 0.001 {
                return Some(c[i - 1] + t);
            }
        }
        None
    }
    fn roughly_within(a: (f64, f64), b: (f64, f64), tolerance_tenths: u64) -> bool {
        dist(a, b) <= tolerance_tenths as f64 / 10.0
    }
    fn negated(v: (f64, f64)) -> (f64, f64) {
        scale(v, -1.0)
    }
    fn before(a: f64, b: f64) -> bool {
        a < b
    }
    fn node_position(node: Node) -> (f64, f64) {
        node.pos
    }
    fn right_of(a: Node, b: Node) -> bool {
        dot(sub(a.pos, b.pos), right(a.dir)) > 0.0
    }
    fn facing_same_way(a: Node, b: Node) -> bool {
        dot(a.dir, b.dir) >= 0.0
    }
    fn aligned_node(target: Node, flip: bool, distance: u64) -> Node {
        let dir = if flip { scale(target.dir, -1.0) } else { target.dir };
        Node { pos: add(target.pos, scale(right(dir), distance as f64)), dir }
    }
    fn moved_subsection(
        nodes: &Vec<Node>,
        start: f64,
        end: f64,
        delta: (f64, f64),
    ) -> (Vec<Node>, Option<Node>, Vec<Node>, Option<Node>, Vec<Node>) {
        let c = cumulative(nodes);
        let mut before = vec![];
        let mut moved = vec![];
        let mut after = vec![];
        for (i, n) in nodes.iter().enumerate() {
            if c[i] < start - 0.001 {
                before.push(*n);
            } else if c[i] <= end + 0.001 {
                moved.push(Node { pos: add(n.pos, delta), dir: n.dir });
            } else {
                after.push(*n);
            }
        }
        (before, None, moved, None, after)
    }
}

fn node(x: f64, y: f64) -> Node {
    Node { pos: (x, y), dir: (1.0, 0.0) }
}

fn straight(y: f64, xs: &[f64]) -> LaneStroke<Flat> {
    LaneStroke { nodes: xs.iter().map(|&x| node(x, y)).collect() }
}

fn step(strokes: Vec<LaneStroke<Flat>>, selections: Vec<(SelectableStrokeRef, (f64, f64))>, intent: Intent<Flat>) -> PlanStep<Flat> {
    PlanStep {
        plan_delta: PlanDelta { new_strokes: strokes, strokes_to_destroy: vec![] },
        selections,
        intent,
    }
}

fn settings(n: usize, both: bool, parallel: bool) -> Settings {
    Settings { n_lanes_per_side: n, create_both_sides: both, select_parallel: parallel, select_opposite: false }
}

fn no_built() -> BuiltStrokes<Flat> {
    BuiltStrokes { mapping: vec![] }
}

fn close(a: (f64, f64), b: (f64, f64)) -> bool {
    dist(a, b) < 1e-9
}

#[test]
fn default_intent_is_idle() {
    assert!(matches!(Intent::<Flat>::default(), Intent::Idle));
}

#[test]
fn idle_intent_keeps_the_plan() {
    let current = step(vec![straight(0.0, &[0.0, 10.0])], vec![(SelectableStrokeRef::New(0), (1.0, 2.0))], Intent::Idle);
    let r = apply_intent(&current, None, &settings(1, false, false));
    assert_eq!(r.plan_delta.new_strokes.len(), 1);
    assert_eq!(r.plan_delta.new_strokes[0].nodes, current.plan_delta.new_strokes[0].nodes);
    assert_eq!(r.selections, current.selections);
    assert!(matches!(r.intent, Intent::Idle));
}

#[test]
fn lateral_offsets_of_lanes() {
    assert_eq!(lateral_offset(0), 3);
    assert_eq!(lateral_offset(1), 8);
    assert_eq!(lateral_offset(2), 13);
}

#[test]
fn new_road_two_lanes_one_side() {
    let (starts, modes) = road_starts::<Flat>((0.0, 0.0), (10.0, 0.0), &settings(2, false, false));
    assert_eq!(starts.len(), 2);
    assert_eq!(modes, vec![ContinuationMode::Append, ContinuationMode::Append]);
    assert_eq!(starts[0].nodes.len(), 1);
    assert_eq!(starts[1].nodes.len(), 1);
    assert!(close(starts[0].nodes[0].pos, (0.0, -3.0)));
    assert!(close(starts[1].nodes[0].pos, (0.0, -8.0)));
    assert!(close(starts[0].nodes[0].dir, (1.0, 0.0)));
}

#[test]
fn new_road_both_sides_is_mirrored() {
    let (starts, modes) = road_starts::<Flat>((0.0, 0.0), (10.0, 0.0), &settings(1, true, false));
    assert_eq!(starts.len(), 2);
    assert_eq!(modes, vec![ContinuationMode::Append, ContinuationMode::Prepend]);
    assert!(close(starts[1].nodes[0].pos, (0.0, 3.0)));
    assert!(close(starts[1].nodes[0].dir, (-1.0, 0.0)));
}

#[test]
fn new_road_through_intent_builds_lanes() {
    let current = step(vec![], vec![(SelectableStrokeRef::New(0), (0.0, 1.0))], Intent::NewRoad(vec![(0.0, 0.0), (10.0, 0.0), (20.0, 0.0)]));
    let r = apply_intent(&current, None, &settings(2, false, false));
    assert_eq!(r.plan_delta.new_strokes.len(), 2);
    assert_eq!(r.plan_delta.new_strokes[0].nodes.len(), 3);
    assert!(close(r.plan_delta.new_strokes[0].nodes[2].pos, (20.0, -3.0)));
    assert!(close(r.plan_delta.new_strokes[1].nodes[1].pos, (10.0, -8.0)));
    assert!(r.selections.is_empty());
    assert!(matches!(r.intent, Intent::Idle));
}

#[test]
fn continue_road_skips_a_point_too_close() {
    let strokes = vec![straight(-3.0, &[0.0, 10.0])];
    let current = step(
        strokes,
        vec![(SelectableStrokeRef::New(0), (0.0, 1.0))],
        Intent::ContinueRoad(vec![(LaneStrokeRef(0), ContinuationMode::Append)], vec![(10.05, 0.0)], (10.0, 0.0)),
    );
    let r = apply_intent(&current, None, &settings(1, false, false));
    assert_eq!(r.plan_delta.new_strokes[0].nodes, current.plan_delta.new_strokes[0].nodes);
    assert!(r.selections.is_empty());
    assert!(matches!(r.intent, Intent::Idle));
}

#[test]
fn continue_road_appends_parallel_node() {
    let current = step(
        vec![straight(-3.0, &[0.0, 10.0])],
        vec![],
        Intent::ContinueRoad(vec![(LaneStrokeRef(0), ContinuationMode::Append)], vec![(20.0, 0.0)], (10.0, 0.0)),
    );
    let r = apply_intent(&current, None, &settings(1, false, false));
    assert_eq!(r.plan_delta.new_strokes[0].nodes.len(), 3);
    assert!(close(r.plan_delta.new_strokes[0].nodes[2].pos, (20.0, -3.0)));
}

#[test]
fn ill_formed_insertion_is_rolled_back() {
    let mut s = straight(0.0, &[0.0, 10.0]);
    insert_checked(&mut s, node(10.0, 0.0), ContinuationMode::Append);
    assert_eq!(s.nodes.len(), 2);
    insert_checked(&mut s, node(0.0, 0.0), ContinuationMode::Prepend);
    assert_eq!(s.nodes.len(), 2);
    insert_checked(&mut s, node(-5.0, 0.0), ContinuationMode::Prepend);
    assert_eq!(s.nodes.len(), 3);
    assert_eq!(s.nodes[0], node(-5.0, 0.0));
}

#[test]
fn maximize_selection_covers_whole_strokes() {
    let current = step(
        vec![straight(0.0, &[0.0, 10.0]), straight(5.0, &[0.0, 4.0])],
        vec![(SelectableStrokeRef::New(1), (1.0, 2.0)), (SelectableStrokeRef::New(0), (3.0, 4.0))],
        Intent::MaximizeSelection,
    );
    let built = no_built();
    let once = apply_intent(&current, Some(&built), &settings(1, false, false));
    assert_eq!(once.selections, vec![(SelectableStrokeRef::New(1), (0.0, 4.0)), (SelectableStrokeRef::New(0), (0.0, 10.0))]);
    let twice = apply_intent(&once, Some(&built), &settings(1, false, false));
    assert_eq!(twice.selections, once.selections);
}

#[test]
fn select_without_parallel_overwrites_range() {
    let current = step(
        vec![straight(0.0, &[0.0, 10.0]), straight(-5.0, &[0.0, 10.0])],
        vec![(SelectableStrokeRef::New(0), (1.0, 2.0))],
        Intent::Select(SelectableStrokeRef::New(0), 3.0, 6.0),
    );
    let r = apply_intent(&current, Some(&no_built()), &settings(1, false, false));
    assert_eq!(r.selections, vec![(SelectableStrokeRef::New(0), (3.0, 6.0))]);
    assert!(matches!(r.intent, Intent::Idle));
}

#[test]
fn parallel_selection_is_symmetric() {
    let strokes = || vec![straight(0.0, &[0.0, 10.0]), straight(-5.0, &[0.0, 10.0])];
    let on_a = step(strokes(), vec![], Intent::Select(SelectableStrokeRef::New(0), 2.0, 8.0));
    let r = apply_intent(&on_a, Some(&no_built()), &settings(1, false, true));
    assert_eq!(r.selections, vec![(SelectableStrokeRef::New(0), (2.0, 8.0)), (SelectableStrokeRef::New(1), (2.0, 8.0))]);
    let on_b = step(strokes(), vec![], Intent::Select(SelectableStrokeRef::New(1), 2.0, 8.0));
    let r = apply_intent(&on_b, Some(&no_built()), &settings(1, false, true));
    assert!(r.selections.contains(&(SelectableStrokeRef::New(0), (2.0, 8.0))));
}

#[test]
fn parallel_selection_includes_committed_strokes() {
    let built = BuiltStrokes { mapping: vec![(BuiltLaneStrokeRef(7), straight(-5.0, &[0.0, 10.0]))] };
    let current = step(vec![straight(0.0, &[0.0, 10.0])], vec![], Intent::Select(SelectableStrokeRef::New(0), 2.0, 8.0));
    let r = apply_intent(&current, Some(&built), &settings(1, false, true));
    assert!(r.selections.contains(&(SelectableStrokeRef::Built(BuiltLaneStrokeRef(7)), (2.0, 8.0))));
}

#[test]
fn delete_selection_leaves_two_pieces() {
    let current = step(
        vec![straight(0.0, &[0.0, 5.0, 10.0])],
        vec![(SelectableStrokeRef::New(0), (3.0, 7.0))],
        Intent::DeleteSelection,
    );
    let r = apply_intent(&current, Some(&no_built()), &settings(1, false, false));
    assert_eq!(r.plan_delta.new_strokes.len(), 3);
    let before = &r.plan_delta.new_strokes[1].nodes;
    let after = &r.plan_delta.new_strokes[2].nodes;
    assert!(close(before[0].pos, (0.0, 0.0)) && close(before.last().unwrap().pos, (3.0, 0.0)));
    assert!(close(after[0].pos, (7.0, 0.0)) && close(after.last().unwrap().pos, (10.0, 0.0)));
    assert!(r.selections.is_empty());
    assert!(matches!(r.intent, Intent::Idle));
}

#[test]
fn next_lane_is_offset_and_not_duplicated() {
    let current = step(
        vec![straight(0.0, &[0.0, 10.0])],
        vec![(SelectableStrokeRef::New(0), (0.0, 10.0))],
        Intent::CreateNextLane,
    );
    let r = apply_intent(&current, Some(&no_built()), &settings(1, false, false));
    assert_eq!(r.plan_delta.new_strokes.len(), 2);
    for (n, o) in r.plan_delta.new_strokes[1].nodes.iter().zip(current.plan_delta.new_strokes[0].nodes.iter()) {
        assert!(close(n.pos, (o.pos.0, o.pos.1 - 5.0)));
        assert_eq!(n.dir, o.dir);
    }
    assert!(r.selections.is_empty());
    let again = step(
        r.plan_delta.new_strokes,
        vec![(SelectableStrokeRef::New(0), (0.0, 10.0)), (SelectableStrokeRef::New(1), (0.0, 10.0))],
        Intent::CreateNextLane,
    );
    let r2 = apply_intent(&again, Some(&no_built()), &settings(1, false, false));
    assert_eq!(r2.plan_delta.new_strokes.len(), 3);
    assert!(close(r2.plan_delta.new_strokes[2].nodes[0].pos, (0.0, -10.0)));
}

#[test]
fn move_selection_moves_new_and_committed_strokes() {
    let built = BuiltStrokes { mapping: vec![(BuiltLaneStrokeRef(3), straight(20.0, &[0.0, 10.0]))] };
    let current = step(
        vec![straight(0.0, &[0.0, 10.0])],
        vec![
            (SelectableStrokeRef::New(0), (0.0, 10.0)),
            (SelectableStrokeRef::Built(BuiltLaneStrokeRef(3)), (0.0, 10.0)),
        ],
        Intent::MoveSelection((0.0, 2.0)),
    );
    let r = apply_intent(&current, Some(&built), &settings(1, false, false));
    assert_eq!(r.plan_delta.new_strokes.len(), 2);
    assert!(close(r.plan_delta.new_strokes[0].nodes[0].pos, (0.0, 2.0)));
    assert!(close(r.plan_delta.new_strokes[1].nodes[1].pos, (10.0, 22.0)));
    assert_eq!(r.plan_delta.strokes_to_destroy.len(), 1);
    assert_eq!(r.plan_delta.strokes_to_destroy[0].0, BuiltLaneStrokeRef(3));
    assert_eq!(r.selections, vec![(SelectableStrokeRef::New(0), (0.0, 10.0)), (SelectableStrokeRef::New(1), (0.0, 10.0))]);
    assert!(matches!(r.intent, Intent::MoveSelection(_)));
}

fn c(index: usize, end: Connector) -> ConnectorRef {
    ConnectorRef { index, end }
}

#[test]
fn alignments_are_ordered_by_dependency() {
    let first = Alignment { align: c(0, Connector::Before), to: c(1, Connector::Before) };
    let second = Alignment { align: c(1, Connector::Before), to: c(2, Connector::After) };
    let ordered = order_alignments(&vec![first, second]).unwrap();
    assert_eq!(ordered, vec![second, first]);
}

#[test]
fn cyclic_alignments_have_no_order() {
    let a = Alignment { align: c(0, Connector::Before), to: c(1, Connector::Before) };
    let b = Alignment { align: c(1, Connector::Before), to: c(0, Connector::Before) };
    assert_eq!(order_alignments(&vec![a, b]), None);
}

#[test]
fn side_by_side_ranges_align_their_connectors() {
    let left = MovedStroke::<Flat> {
        reference: SelectableStrokeRef::New(0),
        before: vec![node(-10.0, 0.0)],
        subsection: vec![node(0.0, 0.0), node(10.0, 0.0)],
        after: vec![],
    };
    let right = MovedStroke::<Flat> {
        reference: SelectableStrokeRef::New(1),
        before: vec![node(-10.0, -5.0)],
        subsection: vec![node(0.0, -5.0), node(10.0, -5.0)],
        after: vec![],
    };
    let before = vec![Some(node(-5.0, 0.0)), Some(node(-5.0, -5.0))];
    let after = vec![None, None];
    let found = find_alignments(&vec![left, right], &before, &after);
    assert_eq!(found, vec![Alignment { align: c(1, Connector::Before), to: c(0, Connector::Before) }]);
}
