use vstd::prelude::*;
use crate::continuation::{all_nonempty, apply_continue_road, apply_new_road, continue_points};
use crate::edit::{apply_create_next_lane, apply_delete_selection, delete_fragments, next_lanes, selected_subsections};
use crate::geometry::Geometry;
use crate::model::{lookup, BuiltStrokes, Intent, PlanStep, Settings};
use crate::move_selection::{
    after_connectors_of, aligned_all, all_alignments, apply_move_selection, before_connectors_of, cuts,
    in_dependency_order, move_result, ranges_of, rebuild_all, Alignment,
};
use crate::selection::{apply_maximize_selection, apply_select, maximized, select_result, selections_resolve};

verus! {

/// Whether the intent reads the committed strokes.
pub open spec fn needs_built<G: Geometry>(intent: Intent<G>) -> bool {
    !(intent is Idle || intent is NewRoad || intent is ContinueRoad)
}

/// What a caller must provide for the pending intent of `current`.
pub open spec fn can_apply<G: Geometry>(current: PlanStep<G>, built: Option<&BuiltStrokes<G>>, settings: Settings) -> bool {
    &&& needs_built(current.intent) ==> built is Some
    &&& current.inv()
    &&& all_nonempty(current.plan_delta.strokes())
    &&& match current.intent {
        Intent::NewRoad(points) => points@.len() >= 2 && settings.n_lanes_per_side < 1_000_000_000
            && current.plan_delta.strokes().len() + 2 * settings.n_lanes_per_side <= usize::MAX,
        Intent::MaximizeSelection => selections_resolve(current.selections@, current.plan_delta, *built->Some_0),
        _ => true,
    }
}

/// Applies the pending intent of `current` and returns the next snapshot.
/// The intents that work on selections read the committed strokes.
pub fn apply_intent<G: Geometry>(
    current: &PlanStep<G>,
    maybe_still_built_strokes: Option<&BuiltStrokes<G>>,
    settings: &Settings,
) -> (r: PlanStep<G>)
    requires
        can_apply(*current, maybe_still_built_strokes, *settings),
    ensures
        r.inv(),
        current.intent is Idle ==> r.same_as(current),
        current.intent is NewRoad ==> r.selections@.len() == 0 && r.intent is Idle
            && r.plan_delta.destroyed() == current.plan_delta.destroyed(),
        match current.intent {
            Intent::ContinueRoad(continue_from, points, start) => r.plan_delta.strokes() == continue_points::<G>(
                current.plan_delta.strokes(),
                continue_from@,
                start,
                points@,
            ) && r.plan_delta.destroyed() == current.plan_delta.destroyed()
                && r.selections@.len() == 0 && r.intent is Idle,
            Intent::Select(reference, start, end) => r.selections@ == select_result::<G>(
                current.selections@,
                current.plan_delta,
                *maybe_still_built_strokes->Some_0,
                reference,
                start,
                end,
                *settings,
            ) && lookup(r.selections@, reference) == Some((start, end))
                && r.inv() && r.plan_delta.same_as(&current.plan_delta) && r.intent is Idle,
            Intent::MaximizeSelection => r.selections@ == maximized(
                current.selections@,
                current.plan_delta,
                *maybe_still_built_strokes->Some_0,
            ) && r.plan_delta.same_as(&current.plan_delta) && r.intent.same_as(&current.intent),
            Intent::MoveSelection(delta) => ({
                let built = *maybe_still_built_strokes->Some_0;
                let cut = cuts::<G>(current.selections@, current.plan_delta, built, delta);
                let bcs = before_connectors_of::<G>(cut);
                let acs = after_connectors_of::<G>(cut);
                let found = all_alignments::<G>(ranges_of::<G>(cut), bcs, acs, cut.len());
                exists|order: Seq<Alignment>|
                    (order == found || in_dependency_order(order, found))
                    && (r.plan_delta.strokes(), r.plan_delta.destroyed(), r.selections@) == rebuild_all::<G>(
                        (current.plan_delta.strokes(), current.plan_delta.destroyed(), Seq::empty()),
                        cut,
                        #[trigger] aligned_all::<G>(bcs, acs, order, order.len()).0,
                        aligned_all::<G>(bcs, acs, order, order.len()).1,
                        built,
                        cut.len(),
                    )
            }) && move_result(current.plan_delta, r.plan_delta, *maybe_still_built_strokes->Some_0)
                && r.intent.same_as(&current.intent),
            Intent::DeleteSelection => r.plan_delta.strokes() == current.plan_delta.strokes() + delete_fragments::<G>(
                current.selections@,
                current.plan_delta,
                *maybe_still_built_strokes->Some_0,
            ) && r.selections@.len() == 0 && r.intent is Idle,
            Intent::CreateNextLane => ({
                let subs = selected_subsections::<G>(
                    current.selections@,
                    current.plan_delta,
                    *maybe_still_built_strokes->Some_0,
                );
                r.plan_delta.strokes() == current.plan_delta.strokes() + next_lanes::<G>(subs, subs)
            }) && r.selections@.len() == 0 && r.intent is Idle,
            _ => true,
        },
{
    match &current.intent {
        Intent::Idle => current.copy(),
        Intent::NewRoad(points) => apply_new_road(points, current, settings),
        Intent::ContinueRoad(continue_from, additional_points, start_reference_point) => {
            apply_continue_road(continue_from, additional_points, *start_reference_point, current)
        },
        Intent::Select(selection_ref, start, end) => {
            let built = maybe_still_built_strokes.unwrap();
            apply_select(*selection_ref, *start, *end, current, built, settings)
        },
        Intent::MaximizeSelection => apply_maximize_selection(current, maybe_still_built_strokes.unwrap()),
        Intent::MoveSelection(delta) => apply_move_selection(*delta, current, maybe_still_built_strokes.unwrap()),
        Intent::DeleteSelection => apply_delete_selection(current, maybe_still_built_strokes.unwrap()),
        Intent::CreateNextLane => apply_create_next_lane(current, maybe_still_built_strokes.unwrap()),
    }
}

} // verus!
