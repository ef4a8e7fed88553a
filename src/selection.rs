use vstd::prelude::*;
use crate::geometry::Geometry;
use crate::model::{
    copy_vec, first_index, get_stroke, keys_of, keys_unique, lemma_first_index, lookup, resolve,
    BuiltLaneStrokeRef, BuiltStrokes, Intent, PlanDelta, PlanStep, SelectableStrokeRef, Selection, Settings,
};

verus! {

/// The selections with `k` selected at `v`: its entry is overwritten if it
/// has one, else added at the end.
pub open spec fn spec_upsert<K, V>(s: Seq<(K, V)>, k: K, v: V) -> Seq<(K, V)> {
    match first_index(s, k) {
        Some(i) => s.update(i, (k, v)),
        None => s.push((k, v)),
    }
}

/// Under unique keys, an entry's key finds that entry.
pub proof fn lemma_unique_index<K, V>(s: Seq<(K, V)>, i: int)
    requires
        keys_unique(s),
        0 <= i < s.len(),
    ensures
        first_index(s, s[i].0) == Some(i),
{
    assert forall|j: int| 0 <= j < i implies s[j].0 != s[i].0 by {}
    lemma_first_index(s, s[i].0, i);
}

/// Selecting `k` keeps keys unique, finds `v` under `k` and leaves the other
/// keys' values as they were.
pub proof fn lemma_upsert<K, V>(s: Seq<(K, V)>, k: K, v: V)
    requires
        keys_unique(s),
    ensures
        keys_unique(spec_upsert(s, k, v)),
        lookup(spec_upsert(s, k, v), k) == Some(v),
        forall|k2: K| k2 != k ==> lookup(spec_upsert(s, k, v), k2) == lookup(s, k2),
        forall|k2: K| lookup(s, k2) is Some ==> lookup(spec_upsert(s, k, v), k2) is Some,
{
    let r = spec_upsert(s, k, v);
    match first_index(s, k) {
        Some(i) => {
            assert(s[i].0 == k);
            assert(keys_unique(r));
            lemma_unique_index(r, i);
        },
        None => {
            assert forall|j: int| 0 <= j < s.len() implies s[j].0 != k by {}
            assert(keys_unique(r));
            lemma_unique_index(r, s.len() as int);
        },
    }
    assert forall|k2: K| k2 != k implies lookup(r, k2) == lookup(s, k2) by {
        if exists|j: int| 0 <= j < s.len() && s[j].0 == k2 {
            let j = choose|j: int| 0 <= j < s.len() && s[j].0 == k2;
            lemma_unique_index(s, j);
            assert(r[j] == s[j]);
            lemma_unique_index(r, j);
        } else {
            assert forall|j: int| 0 <= j < r.len() implies r[j].0 != k2 by {
                if j < s.len() {
                    assert(r[j].0 == s[j].0 || r[j].0 == k);
                }
            }
        }
    }
}

/// Selects `k` at `v`.
pub fn upsert<G: Geometry>(s: &mut Vec<Selection<G>>, k: SelectableStrokeRef, v: (G::Scalar, G::Scalar))
    ensures
        final(s)@ == spec_upsert(old(s)@, k, v),
{
    let mut i: usize = 0;
    while i < s.len()
        invariant
            i <= s@.len(),
            s@ == old(s)@,
            forall|j: int| 0 <= j < i ==> s@[j].0 != k,
        decreases s@.len() - i,
    {
        if s[i].0 == k {
            proof {
                lemma_first_index(s@, k, i as int);
            }
            s.set(i, (k, v));
            return;
        }
        i = i + 1;
    }
    s.push((k, v));
}

/// The clicked range's ends: the position and direction at its start, then
/// those at its end.
pub type RangeEnds<G> = (<G as Geometry>::Point, <G as Geometry>::Point, <G as Geometry>::Point, <G as Geometry>::Point);

/// The range of the stroke through `other` that runs beside the clicked
/// range, if it does: see `parallel_range`.
pub open spec fn spec_parallel_range<G: Geometry>(other: Seq<G::Node>, ends: RangeEnds<G>, select_opposite: bool) -> Option<(G::Scalar, G::Scalar)> {
    let (sp, sd, ep, ed) = ends;
    match (G::spec_project(other, sp), G::spec_project(other, ep)) {
        (Some(s), Some(e)) => {
            let close = G::spec_roughly_within(G::spec_along(other, s), sp, 600)
                && G::spec_roughly_within(G::spec_along(other, e), ep, 600);
            let forward = G::spec_before(s, e);
            let aligned = if forward {
                G::spec_roughly_within(G::spec_direction_along(other, s), sd, 1)
                    && G::spec_roughly_within(G::spec_direction_along(other, e), ed, 1)
            } else if select_opposite {
                G::spec_roughly_within(G::spec_direction_along(other, s), G::spec_negated(sd), 1)
                    && G::spec_roughly_within(G::spec_direction_along(other, e), G::spec_negated(ed), 1)
            } else {
                false
            };
            if close && aligned {
                if forward {
                    Some((s, e))
                } else {
                    Some((e, s))
                }
            } else {
                None
            }
        },
        _ => None,
    }
}

/// The matches among the first `n` new strokes, other than `selected`.
pub open spec fn new_candidates<G: Geometry>(
    strokes: Seq<Seq<G::Node>>,
    n: nat,
    selected: SelectableStrokeRef,
    ends: RangeEnds<G>,
    select_opposite: bool,
) -> Seq<Selection<G>>
    decreases n,
{
    if n == 0 {
        Seq::empty()
    } else {
        let prev = new_candidates::<G>(strokes, (n - 1) as nat, selected, ends, select_opposite);
        let r = SelectableStrokeRef::New((n - 1) as usize);
        match spec_parallel_range::<G>(strokes[n - 1], ends, select_opposite) {
            Some(range) => if r != selected {
                prev.push((r, range))
            } else {
                prev
            },
            None => prev,
        }
    }
}

/// The matches among the first `n` committed strokes, other than `selected`.
pub open spec fn built_candidates<G: Geometry>(
    mapping: Seq<(BuiltLaneStrokeRef, Seq<G::Node>)>,
    n: nat,
    selected: SelectableStrokeRef,
    ends: RangeEnds<G>,
    select_opposite: bool,
) -> Seq<Selection<G>>
    decreases n,
{
    if n == 0 {
        Seq::empty()
    } else {
        let prev = built_candidates::<G>(mapping, (n - 1) as nat, selected, ends, select_opposite);
        let r = SelectableStrokeRef::Built(mapping[n - 1].0);
        match spec_parallel_range::<G>(mapping[n - 1].1, ends, select_opposite) {
            Some(range) => if r != selected {
                prev.push((r, range))
            } else {
                prev
            },
            None => prev,
        }
    }
}

/// The selections with each of `adds` selected in turn.
pub open spec fn upsert_all<G: Geometry>(sels: Seq<Selection<G>>, adds: Seq<Selection<G>>) -> Seq<Selection<G>>
    decreases adds.len(),
{
    if adds.len() == 0 {
        sels
    } else {
        let prev = upsert_all::<G>(sels, adds.drop_last());
        spec_upsert(prev, adds.last().0, adds.last().1)
    }
}

/// The selections after selecting `selected` from `start` to `end`: the
/// range itself, then every parallel match where the settings ask for them.
pub open spec fn select_result<G: Geometry>(
    sels: Seq<Selection<G>>,
    delta: PlanDelta<G>,
    built: BuiltStrokes<G>,
    selected: SelectableStrokeRef,
    start: G::Scalar,
    end: G::Scalar,
    settings: Settings,
) -> Seq<Selection<G>> {
    let base = spec_upsert(sels, selected, (start, end));
    if !settings.select_parallel {
        base
    } else {
        match resolve(delta, built, selected) {
            None => base,
            Some(nodes) => {
                let ends = (
                    G::spec_along(nodes, start),
                    G::spec_direction_along(nodes, start),
                    G::spec_along(nodes, end),
                    G::spec_direction_along(nodes, end),
                );
                upsert_all::<G>(
                    base,
                    new_candidates::<G>(delta.strokes(), delta.strokes().len(), selected, ends, settings.select_opposite)
                        + built_candidates::<G>(built.strokes(), built.strokes().len(), selected, ends, settings.select_opposite),
                )
            },
        }
    }
}

/// Whether the stroke through `other` runs beside the clicked range, whose
/// ends lie at `start_position` and `end_position` with directions
/// `start_direction` and `end_direction`; if it does, the range of `other`
/// beside it. Its projected ends must lie within sixty units of the clicked
/// ones, and its directions there within a tenth of the clicked directions;
/// where it runs the other way, it matches only when opposite strokes are
/// asked for, and against the reversed directions.
fn parallel_range<G: Geometry>(
    other: &Vec<G::Node>,
    start_position: G::Point,
    start_direction: G::Point,
    end_position: G::Point,
    end_direction: G::Point,
    select_opposite: bool,
) -> (r: Option<(G::Scalar, G::Scalar)>)
    ensures
        r == spec_parallel_range::<G>(other@, (start_position, start_direction, end_position, end_direction), select_opposite),
{
    let (start_on_other_distance, end_on_other_distance) = match (
        G::project(other, start_position),
        G::project(other, end_position),
    ) {
        (Some(s), Some(e)) => (s, e),
        _ => {
            return None;
        },
    };
    let start_on_other = G::along(other, start_on_other_distance);
    let start_direction_on_other = G::direction_along(other, start_on_other_distance);
    let end_on_other = G::along(other, end_on_other_distance);
    let end_direction_on_other = G::direction_along(other, end_on_other_distance);
    let close = G::roughly_within(start_on_other, start_position, 600) && G::roughly_within(end_on_other, end_position, 600);
    let forward = G::before(start_on_other_distance, end_on_other_distance);
    let aligned = if forward {
        G::roughly_within(start_direction_on_other, start_direction, 1) && G::roughly_within(end_direction_on_other, end_direction, 1)
    } else if select_opposite {
        G::roughly_within(start_direction_on_other, G::negated(start_direction), 1) && G::roughly_within(end_direction_on_other, G::negated(end_direction), 1)
    } else {
        false
    };
    if close && aligned {
        if forward {
            Some((start_on_other_distance, end_on_other_distance))
        } else {
            Some((end_on_other_distance, start_on_other_distance))
        }
    } else {
        None
    }
}

/// Selects the range from `start` to `end` of the stroke `selection_ref`.
/// Where the settings ask for parallel selection, every other stroke, new or
/// committed, that runs beside that range is selected at the range beside it.
/// The plan delta stays as it is and no intent is left pending.
pub fn apply_select<G: Geometry>(
    selection_ref: SelectableStrokeRef,
    start: G::Scalar,
    end: G::Scalar,
    current: &PlanStep<G>,
    built: &BuiltStrokes<G>,
    settings: &Settings,
) -> (r: PlanStep<G>)
    requires
        current.inv(),
    ensures
        r.inv(),
        r.selections@ == select_result::<G>(
            current.selections@,
            current.plan_delta,
            *built,
            selection_ref,
            start,
            end,
            *settings,
        ),
        lookup(r.selections@, selection_ref) == Some((start, end)),
        forall|k: SelectableStrokeRef| lookup(current.selections@, k) is Some ==> lookup(r.selections@, k) is Some,
        !settings.select_parallel ==> r.selections@ == spec_upsert(current.selections@, selection_ref, (start, end)),
        r.plan_delta.same_as(&current.plan_delta),
        r.intent is Idle,
{
    let mut selections = copy_vec(&current.selections);
    upsert::<G>(&mut selections, selection_ref, (start, end));
    proof {
        lemma_upsert(current.selections@, selection_ref, (start, end));
    }
    if settings.select_parallel {
        if let Some(stroke) = get_stroke(selection_ref, &current.plan_delta, built) {
            let path = stroke.nodes();
            let start_position = G::along(path, start);
            let start_direction = G::direction_along(path, start);
            let end_position = G::along(path, end);
            let end_direction = G::direction_along(path, end);
            let ghost ends = (start_position, start_direction, end_position, end_direction);
            let ghost opp = settings.select_opposite;
            let ghost strokes = current.plan_delta.strokes();
            let ghost mapping = built.strokes();
            let ghost base = selections@;
            let mut additional: Vec<Selection<G>> = Vec::new();
            let mut i: usize = 0;
            while i < current.plan_delta.new_strokes.len()
                invariant
                    i <= current.plan_delta.new_strokes@.len(),
                    strokes == current.plan_delta.strokes(),
                    ends == (start_position, start_direction, end_position, end_direction),
                    opp == settings.select_opposite,
                    additional@ == new_candidates::<G>(strokes, i as nat, selection_ref, ends, opp),
                    forall|j: int| 0 <= j < additional@.len() ==> additional@[j].0 != selection_ref,
                decreases current.plan_delta.new_strokes@.len() - i,
            {
                assert(strokes[i as int] == current.plan_delta.new_strokes@[i as int]@);
                let other_ref = SelectableStrokeRef::New(i);
                let found = parallel_range::<G>(
                    current.plan_delta.new_strokes[i].nodes(),
                    start_position,
                    start_direction,
                    end_position,
                    end_direction,
                    settings.select_opposite,
                );
                let ghost prev = additional@;
                if let Some(range) = found {
                    if other_ref != selection_ref {
                        additional.push((other_ref, range));
                    }
                }
                proof {
                    let n1 = (i + 1) as nat;
                    assert((n1 - 1) as usize == i);
                    assert(found == spec_parallel_range::<G>(strokes[i as int], ends, opp));
                    assert(prev == new_candidates::<G>(strokes, (n1 - 1) as nat, selection_ref, ends, opp));
                    assert(additional@ == new_candidates::<G>(strokes, n1, selection_ref, ends, opp));
                }
                i = i + 1;
            }
            let ghost from_new = additional@;
            let mut i: usize = 0;
            while i < built.mapping.len()
                invariant
                    i <= built.mapping@.len(),
                    mapping == built.strokes(),
                    ends == (start_position, start_direction, end_position, end_direction),
                    opp == settings.select_opposite,
                    additional@ == from_new + built_candidates::<G>(mapping, i as nat, selection_ref, ends, opp),
                    forall|j: int| 0 <= j < additional@.len() ==> additional@[j].0 != selection_ref,
                decreases built.mapping@.len() - i,
            {
                assert(mapping[i as int] == (built.mapping@[i as int].0, built.mapping@[i as int].1@));
                let other_ref = SelectableStrokeRef::Built(built.mapping[i].0);
                let found = parallel_range::<G>(
                    built.mapping[i].1.nodes(),
                    start_position,
                    start_direction,
                    end_position,
                    end_direction,
                    settings.select_opposite,
                );
                let ghost prev = built_candidates::<G>(mapping, i as nat, selection_ref, ends, opp);
                if let Some(range) = found {
                    if other_ref != selection_ref {
                        additional.push((other_ref, range));
                    }
                }
                proof {
                    let n1 = (i + 1) as nat;
                    assert((n1 - 1) as nat == i as nat);
                    assert(found == spec_parallel_range::<G>(mapping[i as int].1, ends, opp));
                    assert(other_ref == SelectableStrokeRef::Built(mapping[i as int].0));
                    assert(prev == built_candidates::<G>(mapping, (n1 - 1) as nat, selection_ref, ends, opp));
                    let next = built_candidates::<G>(mapping, n1, selection_ref, ends, opp);
                    if found is Some && other_ref != selection_ref {
                        assert(next == prev.push((other_ref, found->Some_0)));
                        assert(additional@ =~= from_new + next);
                    } else {
                        assert(next == prev);
                    }
                }
                i = i + 1;
            }
            let mut j: usize = 0;
            while j < additional.len()
                invariant
                    j <= additional@.len(),
                    forall|j: int| 0 <= j < additional@.len() ==> additional@[j].0 != selection_ref,
                    keys_unique(selections@),
                    selections@ == upsert_all::<G>(base, additional@.subrange(0, j as int)),
                    lookup(selections@, selection_ref) == Some((start, end)),
                    forall|k: SelectableStrokeRef| lookup(current.selections@, k) is Some ==> lookup(selections@, k) is Some,
                decreases additional@.len() - j,
            {
                let (other_ref, range) = additional[j];
                let ghost s0 = selections@;
                assert(additional@.subrange(0, j + 1).drop_last() =~= additional@.subrange(0, j as int));
                proof {
                    lemma_upsert(selections@, other_ref, range);
                }
                upsert::<G>(&mut selections, other_ref, range);
                assert forall|k: SelectableStrokeRef| lookup(current.selections@, k) is Some implies lookup(selections@, k) is Some by {
                    assert(lookup(s0, k) is Some);
                }
                j = j + 1;
            }
            assert(additional@.subrange(0, j as int) =~= additional@);
        }
    }
    PlanStep { plan_delta: current.plan_delta.copy(), selections, intent: Intent::Idle }
}

/// Every selected reference designates a stroke.
pub open spec fn selections_resolve<G: Geometry>(sels: Seq<Selection<G>>, delta: PlanDelta<G>, built: BuiltStrokes<G>) -> bool {
    forall|k: int| 0 <= k < sels.len() ==> resolve(delta, built, #[trigger] sels[k].0) is Some
}

/// The selections with every range widened to the whole stroke.
pub open spec fn maximized<G: Geometry>(sels: Seq<Selection<G>>, delta: PlanDelta<G>, built: BuiltStrokes<G>) -> Seq<Selection<G>> {
    Seq::new(sels.len(), |k: int| (
        sels[k].0,
        (G::spec_zero(), G::spec_length(resolve(delta, built, sels[k].0)->Some_0)),
    ))
}

/// Widens every selected range to the whole of its stroke. The selected
/// references, the plan delta and the intent stay as they are.
#[verifier::rlimit(40)]
pub fn apply_maximize_selection<G: Geometry>(current: &PlanStep<G>, built: &BuiltStrokes<G>) -> (r: PlanStep<G>)
    requires
        selections_resolve(current.selections@, current.plan_delta, *built),
    ensures
        r.selections@ == maximized(current.selections@, current.plan_delta, *built),
        keys_of(r.selections@) == keys_of(current.selections@),
        current.inv() ==> r.inv(),
        r.plan_delta.same_as(&current.plan_delta),
        r.intent.same_as(&current.intent),
{
    let ghost target = maximized(current.selections@, current.plan_delta, *built);
    let mut selections: Vec<Selection<G>> = Vec::new();
    let mut i: usize = 0;
    while i < current.selections.len()
        invariant
            i <= current.selections@.len(),
            selections_resolve(current.selections@, current.plan_delta, *built),
            target == maximized(current.selections@, current.plan_delta, *built),
            selections@ == target.subrange(0, i as int),
        decreases current.selections@.len() - i,
    {
        let reference = current.selections[i].0;
        assert(resolve(current.plan_delta, *built, current.selections@[i as int].0) is Some);
        let ghost prev = selections@;
        match get_stroke(reference, &current.plan_delta, built) {
            Some(stroke) => {
                let length = G::length(stroke.nodes());
                selections.push((reference, (G::zero(), length)));
                assert(selections@[i as int] == target[i as int]);
            },
            None => {},
        }
        i = i + 1;
        assert(selections@ =~= target.subrange(0, i as int)) by {
            assert forall|k: int| 0 <= k < i - 1 implies selections@[k] == target[k] by {
                assert(selections@[k] == prev[k]);
                assert(prev[k] == target.subrange(0, i - 1)[k]);
            }
        }
    }
    assert(target.subrange(0, i as int) =~= target);
    assert(keys_of(selections@) =~= keys_of(current.selections@));
    assert forall|a: int, b: int| 0 <= a < b < selections@.len() && current.inv() implies selections@[a].0 != selections@[b].0 by {
        assert(keys_of(selections@)[a] == keys_of(current.selections@)[a]);
        assert(keys_of(selections@)[b] == keys_of(current.selections@)[b]);
    }
    PlanStep { plan_delta: current.plan_delta.copy(), selections, intent: current.intent.copy() }
}

/// Widening the selections twice gives what widening them once gives.
pub proof fn lemma_maximize_idempotent<G: Geometry>(sels: Seq<Selection<G>>, delta: PlanDelta<G>, built: BuiltStrokes<G>)
    ensures
        maximized(maximized(sels, delta, built), delta, built) == maximized(sels, delta, built),
{
    assert(maximized(maximized(sels, delta, built), delta, built) =~= maximized(sels, delta, built));
}

} // verus!
