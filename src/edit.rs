use vstd::prelude::*;
use crate::geometry::Geometry;
use crate::model::{
    get_stroke, resolve, stroke_views, BuiltStrokes, Intent, LaneStroke, PlanDelta, PlanStep,
    Selection, LANE_DISTANCE,
};

verus! {

/// The strokes of an optional stroke.
pub open spec fn opt_stroke<N>(o: Option<Seq<N>>) -> Seq<Seq<N>> {
    match o {
        Some(s) => seq![s],
        None => Seq::<Seq<N>>::empty(),
    }
}

/// The pieces that deleting the selected ranges leaves: for each selection
/// in order, the part of its stroke before the range and the part after it,
/// each where it is not degenerate.
pub open spec fn delete_fragments<G: Geometry>(sels: Seq<Selection<G>>, delta: PlanDelta<G>, built: BuiltStrokes<G>) -> Seq<Seq<G::Node>>
    decreases sels.len(),
{
    if sels.len() == 0 {
        Seq::empty()
    } else {
        let prev = delete_fragments::<G>(sels.drop_last(), delta, built);
        let (r, (start, end)) = sels.last();
        match resolve(delta, built, r) {
            Some(nodes) => prev
                + opt_stroke(G::spec_subsection(nodes, G::spec_zero(), start))
                + opt_stroke(G::spec_subsection(nodes, end, G::spec_length(nodes))),
            None => prev,
        }
    }
}

fn push_stroke<G: Geometry>(v: &mut Vec<LaneStroke<G>>, s: LaneStroke<G>)
    ensures
        stroke_views(final(v)@) == stroke_views(old(v)@).push(s@),
{
    let ghost v0 = v@;
    v.push(s);
    assert(stroke_views(v@) =~= stroke_views(v0).push(s@));
}

/// Appends the part of `nodes` from `start` to `end` to `v`, if there is one.
fn push_subsection<G: Geometry>(v: &mut Vec<LaneStroke<G>>, nodes: &Vec<G::Node>, start: G::Scalar, end: G::Scalar)
    ensures
        stroke_views(final(v)@) == stroke_views(old(v)@) + opt_stroke(G::spec_subsection(nodes@, start, end)),
{
    match G::subsection(nodes, start, end) {
        Some(s) => {
            push_stroke(v, LaneStroke { nodes: s });
        },
        None => {
            assert(stroke_views(v@) =~= stroke_views(v@) + opt_stroke(G::spec_subsection(nodes@, start, end)));
        },
    }
}

/// Deletes the selected ranges: the parts of each selected stroke before and
/// after its range are added as new strokes, and the selected strokes stay
/// as they are. The result has no selection and no pending intent.
pub fn apply_delete_selection<G: Geometry>(current: &PlanStep<G>, built: &BuiltStrokes<G>) -> (r: PlanStep<G>)
    ensures
        r.plan_delta.strokes() == current.plan_delta.strokes() + delete_fragments::<G>(current.selections@, current.plan_delta, *built),
        r.plan_delta.destroyed() == current.plan_delta.destroyed(),
        r.selections@.len() == 0,
        r.intent is Idle,
{
    let mut delta = current.plan_delta.copy();
    let ghost base = current.plan_delta.strokes();
    let mut i: usize = 0;
    while i < current.selections.len()
        invariant
            i <= current.selections@.len(),
            delta.strokes() == base + delete_fragments::<G>(current.selections@.subrange(0, i as int), current.plan_delta, *built),
            delta.destroyed() == current.plan_delta.destroyed(),
        decreases current.selections@.len() - i,
    {
        let (reference, (start, end)) = current.selections[i];
        let ghost prefix = current.selections@.subrange(0, i as int);
        assert(current.selections@.subrange(0, i + 1).drop_last() =~= prefix);
        if let Some(stroke) = get_stroke(reference, &current.plan_delta, built) {
            let length = G::length(stroke.nodes());
            push_subsection(&mut delta.new_strokes, stroke.nodes(), G::zero(), start);
            push_subsection(&mut delta.new_strokes, stroke.nodes(), end, length);
        }
        i = i + 1;
        assert(delta.strokes() =~= base + delete_fragments::<G>(current.selections@.subrange(0, i as int), current.plan_delta, *built));
    }
    assert(current.selections@.subrange(0, i as int) =~= current.selections@);
    PlanStep { plan_delta: delta, selections: Vec::new(), intent: Intent::Idle }
}

/// Deleting a single selected range whose stroke has a non-degenerate part
/// before it and one after it leaves exactly those two parts.
pub proof fn lemma_delete_single_range<G: Geometry>(sel: Selection<G>, delta: PlanDelta<G>, built: BuiltStrokes<G>)
    requires
        resolve(delta, built, sel.0) is Some,
        G::spec_subsection(resolve(delta, built, sel.0)->Some_0, G::spec_zero(), sel.1.0) is Some,
        G::spec_subsection(
            resolve(delta, built, sel.0)->Some_0,
            sel.1.1,
            G::spec_length(resolve(delta, built, sel.0)->Some_0),
        ) is Some,
    ensures
        ({
            let nodes = resolve(delta, built, sel.0)->Some_0;
            delete_fragments::<G>(seq![sel], delta, built) == seq![
                G::spec_subsection(nodes, G::spec_zero(), sel.1.0)->Some_0,
                G::spec_subsection(nodes, sel.1.1, G::spec_length(nodes))->Some_0,
            ]
        }),
{
    let s = seq![sel];
    assert(s.drop_last() =~= Seq::<Selection<G>>::empty());
    assert(delete_fragments::<G>(s.drop_last(), delta, built) == Seq::<Seq<G::Node>>::empty());
    let nodes = resolve(delta, built, sel.0)->Some_0;
    assert(delete_fragments::<G>(s, delta, built) =~= seq![
        G::spec_subsection(nodes, G::spec_zero(), sel.1.0)->Some_0,
        G::spec_subsection(nodes, sel.1.1, G::spec_length(nodes))->Some_0,
    ]);
}

/// The selected ranges of the selected strokes, where not degenerate.
pub open spec fn selected_subsections<G: Geometry>(sels: Seq<Selection<G>>, delta: PlanDelta<G>, built: BuiltStrokes<G>) -> Seq<Seq<G::Node>>
    decreases sels.len(),
{
    if sels.len() == 0 {
        Seq::empty()
    } else {
        let prev = selected_subsections::<G>(sels.drop_last(), delta, built);
        let (r, (start, end)) = sels.last();
        match resolve(delta, built, r) {
            Some(nodes) => prev + opt_stroke(G::spec_subsection(nodes, start, end)),
            None => prev,
        }
    }
}

/// The nodes moved one lane to the right, each along its own direction's
/// perpendicular.
pub open spec fn offset_all<G: Geometry>(nodes: Seq<G::Node>) -> Seq<G::Node> {
    nodes.map_values(|n: G::Node| G::spec_offset_node(n, LANE_DISTANCE as nat))
}

/// Whether the lane beside `sub` is added: it must be well formed and not
/// run within a tenth of a unit of any of `selected`.
pub open spec fn lane_kept<G: Geometry>(sub: Seq<G::Node>, selected: Seq<Seq<G::Node>>) -> bool {
    G::spec_well_formed(offset_all::<G>(sub))
        && !(exists|t: int| 0 <= t < selected.len() && G::spec_strokes_roughly_within(offset_all::<G>(sub), selected[t], 1))
}

/// The lanes beside `subs` that are added, in order.
pub open spec fn next_lanes<G: Geometry>(subs: Seq<Seq<G::Node>>, selected: Seq<Seq<G::Node>>) -> Seq<Seq<G::Node>>
    decreases subs.len(),
{
    if subs.len() == 0 {
        Seq::empty()
    } else {
        let prev = next_lanes::<G>(subs.drop_last(), selected);
        if lane_kept::<G>(subs.last(), selected) {
            prev.push(offset_all::<G>(subs.last()))
        } else {
            prev
        }
    }
}

/// The nodes moved one lane to the right.
fn offset_nodes<G: Geometry>(nodes: &Vec<G::Node>) -> (r: Vec<G::Node>)
    ensures
        r@ == offset_all::<G>(nodes@),
{
    let mut r: Vec<G::Node> = Vec::new();
    let mut i: usize = 0;
    while i < nodes.len()
        invariant
            i <= nodes@.len(),
            r@ == offset_all::<G>(nodes@.subrange(0, i as int)),
        decreases nodes@.len() - i,
    {
        r.push(G::offset_node(nodes[i], LANE_DISTANCE));
        i = i + 1;
        assert(r@ =~= offset_all::<G>(nodes@.subrange(0, i as int)));
    }
    assert(nodes@.subrange(0, i as int) =~= nodes@);
    r
}

/// Whether `lane` runs within a tenth of a unit of one of `selected`.
fn coincides<G: Geometry>(lane: &Vec<G::Node>, selected: &Vec<LaneStroke<G>>) -> (r: bool)
    ensures
        r == exists|t: int| 0 <= t < selected@.len() && G::spec_strokes_roughly_within(lane@, stroke_views(selected@)[t], 1),
{
    let mut t: usize = 0;
    while t < selected.len()
        invariant
            t <= selected@.len(),
            forall|u: int| 0 <= u < t ==> !G::spec_strokes_roughly_within(lane@, stroke_views(selected@)[u], 1),
        decreases selected@.len() - t,
    {
        assert(stroke_views(selected@)[t as int] == selected@[t as int]@);
        if G::strokes_roughly_within(lane, selected[t].nodes(), 1) {
            return true;
        }
        t = t + 1;
    }
    false
}

/// Adds, beside each selected range, the lane one lane distance to its
/// right, where it is well formed and does not coincide with a selected
/// range. The result has no selection and no pending intent.
pub fn apply_create_next_lane<G: Geometry>(current: &PlanStep<G>, built: &BuiltStrokes<G>) -> (r: PlanStep<G>)
    ensures
        ({
            let subs = selected_subsections::<G>(current.selections@, current.plan_delta, *built);
            r.plan_delta.strokes() == current.plan_delta.strokes() + next_lanes::<G>(subs, subs)
        }),
        r.plan_delta.destroyed() == current.plan_delta.destroyed(),
        r.selections@.len() == 0,
        r.intent is Idle,
{
    let mut subs: Vec<LaneStroke<G>> = Vec::new();
    let mut i: usize = 0;
    while i < current.selections.len()
        invariant
            i <= current.selections@.len(),
            stroke_views(subs@) == selected_subsections::<G>(current.selections@.subrange(0, i as int), current.plan_delta, *built),
        decreases current.selections@.len() - i,
    {
        let (reference, (start, end)) = current.selections[i];
        assert(current.selections@.subrange(0, i + 1).drop_last() =~= current.selections@.subrange(0, i as int));
        if let Some(stroke) = get_stroke(reference, &current.plan_delta, built) {
            push_subsection(&mut subs, stroke.nodes(), start, end);
        }
        i = i + 1;
    }
    assert(current.selections@.subrange(0, i as int) =~= current.selections@);
    let ghost all = stroke_views(subs@);
    let mut delta = current.plan_delta.copy();
    let ghost base = current.plan_delta.strokes();
    let mut j: usize = 0;
    while j < subs.len()
        invariant
            j <= subs@.len(),
            all == stroke_views(subs@),
            delta.strokes() == base + next_lanes::<G>(all.subrange(0, j as int), all),
            delta.destroyed() == current.plan_delta.destroyed(),
        decreases subs@.len() - j,
    {
        assert(all.subrange(0, j + 1).drop_last() =~= all.subrange(0, j as int));
        assert(all.subrange(0, j + 1).last() == subs@[j as int]@);
        let lane = offset_nodes::<G>(subs[j].nodes());
        if G::well_formed(&lane) && !coincides(&lane, &subs) {
            push_stroke(&mut delta.new_strokes, LaneStroke { nodes: lane });
        }
        j = j + 1;
        assert(delta.strokes() =~= base + next_lanes::<G>(all.subrange(0, j as int), all));
    }
    assert(all.subrange(0, j as int) =~= all);
    PlanStep { plan_delta: delta, selections: Vec::new(), intent: Intent::Idle }
}

/// Every lane that is added lies beside one of the ranges: each of its nodes
/// is the range's node moved one lane distance along that node's
/// perpendicular, with the direction kept.
pub proof fn lemma_next_lane_offset<G: Geometry>(subs: Seq<Seq<G::Node>>, selected: Seq<Seq<G::Node>>, i: int)
    requires
        0 <= i < next_lanes::<G>(subs, selected).len(),
    ensures
        exists|j: int| 0 <= j < subs.len()
            && next_lanes::<G>(subs, selected)[i].len() == subs[j].len()
            && forall|k: int| 0 <= k < subs[j].len() ==>
                next_lanes::<G>(subs, selected)[i][k] == G::spec_offset_node(#[trigger] subs[j][k], LANE_DISTANCE as nat),
    decreases subs.len(),
{
    let prev = next_lanes::<G>(subs.drop_last(), selected);
    if i < prev.len() {
        lemma_next_lane_offset::<G>(subs.drop_last(), selected, i);
        let j = choose|j: int| 0 <= j < subs.drop_last().len()
            && prev[i].len() == subs.drop_last()[j].len()
            && forall|k: int| 0 <= k < subs.drop_last()[j].len() ==>
                prev[i][k] == G::spec_offset_node(#[trigger] subs.drop_last()[j][k], LANE_DISTANCE as nat);
        assert(subs.drop_last()[j] == subs[j]);
        assert(next_lanes::<G>(subs, selected)[i] == prev[i]);
    } else {
        let j = subs.len() - 1;
        assert(next_lanes::<G>(subs, selected)[i] == offset_all::<G>(subs[j]));
    }
}

/// Whether the lane beside `sub` runs within a tenth of a unit of one of
/// `selected`.
pub open spec fn lane_coincides<G: Geometry>(sub: Seq<G::Node>, selected: Seq<Seq<G::Node>>) -> bool {
    exists|t: int| 0 <= t < selected.len() && G::spec_strokes_roughly_within(offset_all::<G>(sub), selected[t], 1)
}

/// No lane is added beside a range whose lane would coincide with a
/// selected range: creating the next lane again, where the lanes of the
/// first time are selected, adds nothing.
pub proof fn lemma_next_lane_not_duplicated<G: Geometry>(subs: Seq<Seq<G::Node>>, selected: Seq<Seq<G::Node>>)
    requires
        forall|j: int| 0 <= j < subs.len() ==> lane_coincides::<G>(#[trigger] subs[j], selected),
    ensures
        next_lanes::<G>(subs, selected).len() == 0,
    decreases subs.len(),
{
    if subs.len() > 0 {
        let rest = subs.drop_last();
        assert forall|j: int| 0 <= j < rest.len() implies lane_coincides::<G>(#[trigger] rest[j], selected) by {
            assert(rest[j] == subs[j]);
        }
        lemma_next_lane_not_duplicated::<G>(rest, selected);
        assert(lane_coincides::<G>(subs[subs.len() - 1], selected));
    }
}

} // verus!
