use vstd::prelude::*;
use crate::geometry::Geometry;
use crate::model::{
    copy_vec, stroke_views, ContinuationMode, Intent, LaneStroke, LaneStrokeRef, PlanStep, Settings,
    CENTER_LANE_DISTANCE, LANE_DISTANCE,
};

verus! {

/// The nodes with `node` added at the end that `mode` names.
pub open spec fn extended<N>(nodes: Seq<N>, node: N, mode: ContinuationMode) -> Seq<N> {
    match mode {
        ContinuationMode::Append => nodes.push(node),
        ContinuationMode::Prepend => seq![node] + nodes,
    }
}

/// The node at the end that `mode` names.
pub open spec fn terminal<N>(nodes: Seq<N>, mode: ContinuationMode) -> N {
    match mode {
        ContinuationMode::Append => nodes.last(),
        ContinuationMode::Prepend => nodes[0],
    }
}

/// A stroke continued from one reference point to the next: it gains the
/// continued node if it stays well formed, and is unchanged otherwise.
pub open spec fn continue_stroke<G: Geometry>(
    nodes: Seq<G::Node>,
    previous_reference: G::Point,
    next_reference: G::Point,
    mode: ContinuationMode,
) -> Seq<G::Node> {
    let node = G::spec_continued_node(previous_reference, next_reference, terminal(nodes, mode), mode);
    let candidate = extended(nodes, node, mode);
    if G::spec_well_formed(candidate) {
        candidate
    } else {
        nodes
    }
}

/// The strokes after continuing, in order, each stroke that `continue_from`
/// names from one reference point to the next.
pub open spec fn continue_all<G: Geometry>(
    strokes: Seq<Seq<G::Node>>,
    continue_from: Seq<(LaneStrokeRef, ContinuationMode)>,
    previous_reference: G::Point,
    next_reference: G::Point,
) -> Seq<Seq<G::Node>>
    decreases continue_from.len(),
{
    if continue_from.len() == 0 {
        strokes
    } else {
        let before = continue_all::<G>(strokes, continue_from.drop_last(), previous_reference, next_reference);
        let (r, mode) = continue_from.last();
        if r.0 < before.len() {
            before.update(r.0 as int, continue_stroke::<G>(before[r.0 as int], previous_reference, next_reference, mode))
        } else {
            before
        }
    }
}

/// The strokes after continuing them through `points` in order, starting
/// from `previous_reference`. A point too close to the previous reference
/// point is skipped and changes nothing.
pub open spec fn continue_points<G: Geometry>(
    strokes: Seq<Seq<G::Node>>,
    continue_from: Seq<(LaneStrokeRef, ContinuationMode)>,
    previous_reference: G::Point,
    points: Seq<G::Point>,
) -> Seq<Seq<G::Node>>
    decreases points.len(),
{
    if points.len() == 0 {
        strokes
    } else if G::spec_too_close(points[0], previous_reference) {
        continue_points::<G>(strokes, continue_from, previous_reference, points.drop_first())
    } else {
        continue_points::<G>(
            continue_all::<G>(strokes, continue_from, previous_reference, points[0]),
            continue_from,
            points[0],
            points.drop_first(),
        )
    }
}

/// Every stroke holds a node.
pub open spec fn all_nonempty<N>(strokes: Seq<Seq<N>>) -> bool {
    forall|i: int| 0 <= i < strokes.len() ==> strokes[i].len() >= 1
}

/// Whether every stroke holds a node.
pub fn all_nonempty_strokes<G: Geometry>(strokes: &Vec<LaneStroke<G>>) -> (r: bool)
    ensures
        r == all_nonempty(stroke_views(strokes@)),
{
    let mut i: usize = 0;
    while i < strokes.len()
        invariant
            i <= strokes@.len(),
            forall|j: int| 0 <= j < i ==> stroke_views(strokes@)[j].len() >= 1,
        decreases strokes@.len() - i,
    {
        assert(stroke_views(strokes@)[i as int] == strokes@[i as int]@);
        if strokes[i].nodes.len() == 0 {
            return false;
        }
        i = i + 1;
    }
    true
}

/// Every stroke that `continue_from` names exists.
pub open spec fn refs_in_range(continue_from: Seq<(LaneStrokeRef, ContinuationMode)>, n: nat) -> bool {
    forall|i: int| 0 <= i < continue_from.len() ==> continue_from[i].0.0 < n
}

/// Adds `node` to the stroke at the end that `mode` names, and takes it back
/// if the stroke is then not well formed.
pub fn insert_checked<G: Geometry>(stroke: &mut LaneStroke<G>, node: G::Node, mode: ContinuationMode)
    ensures
        G::spec_well_formed(extended(old(stroke)@, node, mode)) ==> final(stroke)@ == extended(old(stroke)@, node, mode),
        !G::spec_well_formed(extended(old(stroke)@, node, mode)) ==> final(stroke)@ == old(stroke)@,
{
    let candidate: Vec<G::Node> = match mode {
        ContinuationMode::Append => {
            let mut c = copy_vec(&stroke.nodes);
            c.push(node);
            c
        },
        ContinuationMode::Prepend => {
            let mut c: Vec<G::Node> = Vec::new();
            c.push(node);
            let mut i: usize = 0;
            while i < stroke.nodes.len()
                invariant
                    i <= stroke@.len(),
                    c@ == seq![node] + stroke@.subrange(0, i as int),
                decreases stroke@.len() - i,
            {
                c.push(stroke.nodes[i]);
                i = i + 1;
                assert(c@ =~= seq![node] + stroke@.subrange(0, i as int));
            }
            assert(stroke@.subrange(0, i as int) =~= stroke@);
            c
        },
    };
    if G::well_formed(&candidate) {
        stroke.nodes = candidate;
    }
}

/// The stroke continued from one reference point to the next.
pub fn continued_stroke<G: Geometry>(
    stroke: &LaneStroke<G>,
    previous_reference: G::Point,
    next_reference: G::Point,
    mode: ContinuationMode,
) -> (r: LaneStroke<G>)
    requires
        stroke@.len() >= 1,
    ensures
        r@ == continue_stroke::<G>(stroke@, previous_reference, next_reference, mode),
        r@.len() >= 1,
{
    let last = stroke.nodes.len() - 1;
    let end = match mode {
        ContinuationMode::Append => stroke.nodes[last],
        ContinuationMode::Prepend => stroke.nodes[0],
    };
    let node = G::continued_node(previous_reference, next_reference, end, mode);
    let mut r = stroke.copy();
    insert_checked(&mut r, node, mode);
    r
}

/// Continues, in order, each stroke that `continue_from` names from one
/// reference point to the next.
fn continue_all_strokes<G: Geometry>(
    strokes: &mut Vec<LaneStroke<G>>,
    continue_from: &Vec<(LaneStrokeRef, ContinuationMode)>,
    previous_reference: G::Point,
    next_reference: G::Point,
)
    requires
        all_nonempty(stroke_views(old(strokes)@)),
    ensures
        stroke_views(final(strokes)@) == continue_all::<G>(
            stroke_views(old(strokes)@),
            continue_from@,
            previous_reference,
            next_reference,
        ),
        all_nonempty(stroke_views(final(strokes)@)),
{
    let ghost start = stroke_views(strokes@);
    let mut j: usize = 0;
    while j < continue_from.len()
        invariant
            j <= continue_from@.len(),
            stroke_views(strokes@) == continue_all::<G>(
                start,
                continue_from@.subrange(0, j as int),
                previous_reference,
                next_reference,
            ),
            all_nonempty(stroke_views(strokes@)),
        decreases continue_from@.len() - j,
    {
        let (r, mode) = continue_from[j];
        proof {
            assert(continue_from@.subrange(0, j + 1).drop_last() =~= continue_from@.subrange(0, j as int));
        }
        if r.0 < strokes.len() {
            assert(stroke_views(strokes@)[r.0 as int] == strokes@[r.0 as int]@);
            let s = continued_stroke(&strokes[r.0], previous_reference, next_reference, mode);
            strokes.set(r.0, s);
        }
        j = j + 1;
        proof {
            assert(stroke_views(strokes@) =~= continue_all::<G>(
                start,
                continue_from@.subrange(0, j as int),
                previous_reference,
                next_reference,
            ));
        }
    }
    assert(continue_from@.subrange(0, j as int) =~= continue_from@);
}

/// Continues the strokes that `continue_from` names through
/// `additional_points`, starting from `start_reference_point`. The result
/// has no selection and no pending intent.
pub fn apply_continue_road<G: Geometry>(
    continue_from: &Vec<(LaneStrokeRef, ContinuationMode)>,
    additional_points: &Vec<G::Point>,
    start_reference_point: G::Point,
    current: &PlanStep<G>,
) -> (r: PlanStep<G>)
    requires
        all_nonempty(current.plan_delta.strokes()),
    ensures
        r.plan_delta.strokes() == continue_points::<G>(
            current.plan_delta.strokes(),
            continue_from@,
            start_reference_point,
            additional_points@,
        ),
        r.plan_delta.destroyed() == current.plan_delta.destroyed(),
        all_nonempty(r.plan_delta.strokes()),
        r.selections@.len() == 0,
        r.intent is Idle,
{
    let mut delta = current.plan_delta.copy();
    let mut previous_reference = start_reference_point;
    let mut i: usize = 0;
    assert(additional_points@.subrange(0, additional_points@.len() as int) =~= additional_points@);
    while i < additional_points.len()
        invariant
            i <= additional_points@.len(),
            continue_points::<G>(
                delta.strokes(),
                continue_from@,
                previous_reference,
                additional_points@.subrange(i as int, additional_points@.len() as int),
            ) == continue_points::<G>(
                current.plan_delta.strokes(),
                continue_from@,
                start_reference_point,
                additional_points@,
            ),
            delta.destroyed() == current.plan_delta.destroyed(),
            all_nonempty(delta.strokes()),
        decreases additional_points@.len() - i,
    {
        let next_reference = additional_points[i];
        proof {
            let rest = additional_points@.subrange(i as int, additional_points@.len() as int);
            assert(rest[0] == next_reference);
            assert(rest.drop_first() =~= additional_points@.subrange(i + 1, additional_points@.len() as int));
        }
        if !G::too_close(next_reference, previous_reference) {
            continue_all_strokes(&mut delta.new_strokes, continue_from, previous_reference, next_reference);
            previous_reference = next_reference;
        }
        i = i + 1;
    }
    proof {
        assert(additional_points@.subrange(i as int, additional_points@.len() as int).len() == 0);
    }
    PlanStep { plan_delta: delta, selections: Vec::new(), intent: Intent::Idle }
}

/// Continuing through points that all lie too close to the start reference
/// point changes no stroke.
pub proof fn lemma_continue_skips_close_points<G: Geometry>(
    strokes: Seq<Seq<G::Node>>,
    continue_from: Seq<(LaneStrokeRef, ContinuationMode)>,
    start_reference_point: G::Point,
    points: Seq<G::Point>,
)
    requires
        forall|i: int| 0 <= i < points.len() ==> G::spec_too_close(points[i], start_reference_point),
    ensures
        continue_points::<G>(strokes, continue_from, start_reference_point, points) == strokes,
    decreases points.len(),
{
    if points.len() > 0 {
        let rest = points.drop_first();
        assert forall|i: int| 0 <= i < rest.len() implies G::spec_too_close(rest[i], start_reference_point) by {
            assert(rest[i] == points[i + 1]);
        }
        lemma_continue_skips_close_points::<G>(strokes, continue_from, start_reference_point, rest);
    }
}

/// How far the lane of index `lane_index` lies from the road's centerline.
pub open spec fn spec_lateral_offset(lane_index: nat) -> nat {
    CENTER_LANE_DISTANCE as nat / 2 + LANE_DISTANCE as nat * lane_index
}

pub fn lateral_offset(lane_index: usize) -> (r: u64)
    requires
        lane_index < 1_000_000_000,
    ensures
        r == spec_lateral_offset(lane_index as nat),
{
    CENTER_LANE_DISTANCE / 2 + LANE_DISTANCE * (lane_index as u64)
}

/// The one-node strokes that start a new road at `start`, heading toward
/// `toward`: first the lanes of the forward side, innermost first, then, if
/// both sides are asked for, the mirrored lanes of the other side.
pub open spec fn spec_road_starts<G: Geometry>(start: G::Point, toward: G::Point, settings: Settings) -> Seq<Seq<G::Node>> {
    let n = settings.n_lanes_per_side as nat;
    let sides: nat = if settings.create_both_sides { 2 } else { 1 };
    Seq::new(sides * n, |i: int|
        if i < n {
            seq![G::spec_road_node(start, toward, spec_lateral_offset(i as nat), true)]
        } else {
            seq![G::spec_road_node(start, toward, spec_lateral_offset((i - n) as nat), false)]
        }
    )
}

/// The one-node strokes that start a new road, with the modes in which they
/// are continued.
pub fn road_starts<G: Geometry>(
    start: G::Point,
    toward: G::Point,
    settings: &Settings,
) -> (r: (Vec<LaneStroke<G>>, Vec<ContinuationMode>))
    requires
        settings.n_lanes_per_side < 1_000_000_000,
    ensures
        stroke_views(r.0@) == spec_road_starts::<G>(start, toward, *settings),
        r.1@.len() == r.0@.len(),
        r.0@.len() == (if settings.create_both_sides { 2 * settings.n_lanes_per_side } else { settings.n_lanes_per_side as int }),
        forall|i: int| 0 <= i < r.0@.len() ==> (#[trigger] r.0@[i])@.len() == 1,
        forall|i: int| 0 <= i < r.1@.len() ==> r.1@[i] == (if i < settings.n_lanes_per_side {
            ContinuationMode::Append
        } else {
            ContinuationMode::Prepend
        }),
{
    let n = settings.n_lanes_per_side;
    let ghost spec_starts = spec_road_starts::<G>(start, toward, *settings);
    assert(spec_starts.len() == (if settings.create_both_sides { 2 * n } else { n as int }));
    let mut strokes: Vec<LaneStroke<G>> = Vec::new();
    let mut modes: Vec<ContinuationMode> = Vec::new();
    let mut lane: usize = 0;
    while lane < n
        invariant
            lane <= n,
            n == settings.n_lanes_per_side,
            n < 1_000_000_000,
            strokes@.len() == lane,
            modes@.len() == lane,
            spec_starts.len() >= n,
            spec_starts == spec_road_starts::<G>(start, toward, *settings),
            forall|i: int| 0 <= i < lane ==> strokes@[i]@ == spec_starts[i] && modes@[i] == ContinuationMode::Append,
        decreases n - lane,
    {
        assert(spec_starts[lane as int] == seq![G::spec_road_node(start, toward, spec_lateral_offset(lane as nat), true)]);
        let node = G::road_node(start, toward, lateral_offset(lane), true);
        strokes.push(LaneStroke::with_single_node(node));
        modes.push(ContinuationMode::Append);
        lane = lane + 1;
    }
    if settings.create_both_sides {
        let mut lane: usize = 0;
        while lane < n
            invariant
                lane <= n,
                n == settings.n_lanes_per_side,
                n < 1_000_000_000,
                settings.create_both_sides,
                spec_starts.len() == 2 * n,
                spec_starts == spec_road_starts::<G>(start, toward, *settings),
                strokes@.len() == n + lane,
                modes@.len() == n + lane,
                forall|i: int| 0 <= i < n ==> strokes@[i]@ == spec_starts[i] && modes@[i] == ContinuationMode::Append,
                forall|i: int| n <= i < n + lane ==> strokes@[i]@ == spec_starts[i] && modes@[i] == ContinuationMode::Prepend,
            decreases n - lane,
        {
            assert(spec_starts[(n + lane) as int] == seq![G::spec_road_node(start, toward, spec_lateral_offset(lane as nat), false)]);
            let node = G::road_node(start, toward, lateral_offset(lane), false);
            strokes.push(LaneStroke::with_single_node(node));
            modes.push(ContinuationMode::Prepend);
            lane = lane + 1;
        }
    }
    assert(stroke_views(strokes@) =~= spec_starts);
    assert forall|i: int| 0 <= i < strokes@.len() implies (#[trigger] strokes@[i])@.len() == 1 by {
        assert(strokes@[i]@ == stroke_views(strokes@)[i]);
    }
    (strokes, modes)
}

/// Draws a new road through `points`: it adds the strokes that start the
/// road and continues them through the points after the first, which is the
/// start reference point.
pub fn apply_new_road<G: Geometry>(points: &Vec<G::Point>, current: &PlanStep<G>, settings: &Settings) -> (r: PlanStep<G>)
    requires
        points@.len() >= 2,
        settings.n_lanes_per_side < 1_000_000_000,
        current.plan_delta.strokes().len() + 2 * settings.n_lanes_per_side <= usize::MAX,
        all_nonempty(current.plan_delta.strokes()),
    ensures
        ({
            let starts = spec_road_starts::<G>(points@[0], points@[1], *settings);
            let base = current.plan_delta.strokes().len();
            let n = settings.n_lanes_per_side as int;
            exists|continue_from: Seq<(LaneStrokeRef, ContinuationMode)>|
                continue_from.len() == starts.len()
                && (forall|i: int| 0 <= i < continue_from.len() ==> continue_from[i] == (
                    LaneStrokeRef((base + i) as usize),
                    if i < n { ContinuationMode::Append } else { ContinuationMode::Prepend },
                ))
                && r.plan_delta.strokes() == continue_points::<G>(
                    current.plan_delta.strokes() + starts,
                    continue_from,
                    points@[0],
                    points@.drop_first(),
                )
        }),
        r.plan_delta.destroyed() == current.plan_delta.destroyed(),
        r.selections@.len() == 0,
        r.intent is Idle,
{
    let (starts, modes) = road_starts::<G>(points[0], points[1], settings);
    let mut delta = current.plan_delta.copy();
    let base = delta.new_strokes.len();
    let ghost old_strokes = delta.strokes();
    let mut continue_from: Vec<(LaneStrokeRef, ContinuationMode)> = Vec::new();
    let mut i: usize = 0;
    while i < starts.len()
        invariant
            i <= starts@.len(),
            modes@.len() == starts@.len(),
            base == old_strokes.len(),
            delta.new_strokes@.len() == base + i,
            delta.strokes() == old_strokes + stroke_views(starts@).subrange(0, i as int),
            delta.destroyed() == current.plan_delta.destroyed(),
            continue_from@.len() == i,
            forall|k: int| 0 <= k < i ==> continue_from@[k] == (LaneStrokeRef((base + k) as usize), modes@[k]),
            base + starts@.len() <= usize::MAX,
            stroke_views(starts@) == spec_road_starts::<G>(points@[0], points@[1], *settings),
            all_nonempty(delta.strokes()),
            forall|k: int| 0 <= k < starts@.len() ==> (#[trigger] starts@[k])@.len() == 1,
        decreases starts@.len() - i,
    {
        assert(stroke_views(starts@)[i as int] == starts@[i as int]@);
        let ghost prev = delta.new_strokes@;
        let c = starts[i].copy();
        delta.new_strokes.push(c);
        proof {
            assert forall|j: int| 0 <= j < prev.len() implies delta.strokes()[j] == stroke_views(prev)[j] by {
                assert(delta.new_strokes@[j] == prev[j]);
            }
            assert(delta.strokes()[prev.len() as int] == c@);
        }
        continue_from.push((LaneStrokeRef(base + i), modes[i]));
        i = i + 1;
        assert(delta.strokes() =~= old_strokes + stroke_views(starts@).subrange(0, i as int));
    }
    assert(stroke_views(starts@).subrange(0, i as int) =~= stroke_views(starts@));
    assert(continue_from@.len() == spec_road_starts::<G>(points@[0], points@[1], *settings).len());
    let mut rest: Vec<G::Point> = Vec::new();
    let mut k: usize = 1;
    while k < points.len()
        invariant
            1 <= k <= points@.len(),
            rest@ == points@.subrange(1, k as int),
        decreases points@.len() - k,
    {
        rest.push(points[k]);
        k = k + 1;
        assert(rest@ =~= points@.subrange(1, k as int));
    }
    assert(rest@ =~= points@.drop_first());
    let with_starts = PlanStep { plan_delta: delta, selections: Vec::new(), intent: Intent::Idle };
    apply_continue_road(&continue_from, &rest, points[0], &with_starts)
}

} // verus!
