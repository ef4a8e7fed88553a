use vstd::prelude::*;
use crate::geometry::Geometry;

verus! {

/// Spacing between adjacent lanes that run the same way.
pub const LANE_DISTANCE: u64 = 5;

/// Distance between the innermost lanes of the two sides of a road.
pub const CENTER_LANE_DISTANCE: u64 = 6;

/// Where a stroke grows: at its tail, forward, or at its head, backward.
#[derive(Clone, Copy, PartialEq, Eq, Structural, Debug)]
pub enum ContinuationMode {
    Append,
    Prepend,
}

/// A stroke of the plan delta, by its index among the new strokes.
#[derive(Clone, Copy, PartialEq, Eq, Structural, Debug)]
pub struct LaneStrokeRef(pub usize);

/// A committed stroke, by its key in the committed-stroke store.
#[derive(Clone, Copy, PartialEq, Eq, Structural, Debug)]
pub struct BuiltLaneStrokeRef(pub u64);

/// A stroke that can be selected: a new one of the plan delta or a committed one.
#[derive(Clone, Copy, PartialEq, Eq, Structural, Debug)]
pub enum SelectableStrokeRef {
    New(usize),
    Built(BuiltLaneStrokeRef),
}

/// A lane centerline: an ordered, non-empty sequence of nodes.
pub struct LaneStroke<G: Geometry> {
    pub nodes: Vec<G::Node>,
}

impl<G: Geometry> View for LaneStroke<G> {
    type V = Seq<G::Node>;

    open spec fn view(&self) -> Seq<G::Node> {
        self.nodes@
    }
}

/// A copy of a sequence of plain values.
pub fn copy_vec<T: Copy>(v: &Vec<T>) -> (r: Vec<T>)
    ensures
        r@ == v@,
{
    let mut r: Vec<T> = Vec::new();
    let mut i: usize = 0;
    while i < v.len()
        invariant
            i <= v@.len(),
            r@ == v@.subrange(0, i as int),
        decreases v@.len() - i,
    {
        r.push(v[i]);
        i = i + 1;
        assert(r@ =~= v@.subrange(0, i as int));
    }
    assert(r@ =~= v@);
    r
}

impl<G: Geometry> LaneStroke<G> {
    /// A stroke holds at least one node.
    pub open spec fn inv(&self) -> bool {
        self@.len() >= 1
    }

    pub fn with_single_node(node: G::Node) -> (r: Self)
        ensures
            r@ == seq![node],
    {
        let mut nodes: Vec<G::Node> = Vec::new();
        nodes.push(node);
        LaneStroke { nodes }
    }

    pub fn nodes(&self) -> (r: &Vec<G::Node>)
        ensures
            r@ == self@,
    {
        &self.nodes
    }

    pub fn copy(&self) -> (r: Self)
        ensures
            r@ == self@,
    {
        LaneStroke { nodes: copy_vec(&self.nodes) }
    }
}

/// The views of a sequence of strokes.
pub open spec fn stroke_views<G: Geometry>(s: Seq<LaneStroke<G>>) -> Seq<Seq<G::Node>> {
    s.map_values(|x: LaneStroke<G>| x@)
}

/// The views of a sequence of keyed strokes.
pub open spec fn keyed_views<G: Geometry>(s: Seq<(BuiltLaneStrokeRef, LaneStroke<G>)>) -> Seq<(BuiltLaneStrokeRef, Seq<G::Node>)> {
    s.map_values(|x: (BuiltLaneStrokeRef, LaneStroke<G>)| (x.0, x.1@))
}

pub fn copy_strokes<G: Geometry>(v: &Vec<LaneStroke<G>>) -> (r: Vec<LaneStroke<G>>)
    ensures
        stroke_views(r@) == stroke_views(v@),
{
    let mut r: Vec<LaneStroke<G>> = Vec::new();
    let mut i: usize = 0;
    while i < v.len()
        invariant
            i <= v@.len(),
            r@.len() == i,
            forall|j: int| 0 <= j < i ==> r@[j]@ == v@[j]@,
        decreases v@.len() - i,
    {
        r.push(v[i].copy());
        i = i + 1;
    }
    assert(stroke_views(r@) =~= stroke_views(v@));
    r
}

pub fn copy_keyed<G: Geometry>(v: &Vec<(BuiltLaneStrokeRef, LaneStroke<G>)>) -> (r: Vec<(BuiltLaneStrokeRef, LaneStroke<G>)>)
    ensures
        keyed_views(r@) == keyed_views(v@),
{
    let mut r: Vec<(BuiltLaneStrokeRef, LaneStroke<G>)> = Vec::new();
    let mut i: usize = 0;
    while i < v.len()
        invariant
            i <= v@.len(),
            r@.len() == i,
            forall|j: int| 0 <= j < i ==> r@[j].0 == v@[j].0 && r@[j].1@ == v@[j].1@,
        decreases v@.len() - i,
    {
        r.push((v[i].0, v[i].1.copy()));
        i = i + 1;
    }
    assert(keyed_views(r@) =~= keyed_views(v@));
    r
}

/// The first position of key `k` in a keyed sequence, if it occurs.
pub open spec fn first_index<K, V>(s: Seq<(K, V)>, k: K) -> Option<int> {
    if exists|i: int| 0 <= i < s.len() && s[i].0 == k {
        Some(choose|i: int| 0 <= i < s.len() && s[i].0 == k && forall|j: int| 0 <= j < i ==> s[j].0 != k)
    } else {
        None
    }
}

/// The value under key `k` in a keyed sequence: that of its first entry.
pub open spec fn lookup<K, V>(s: Seq<(K, V)>, k: K) -> Option<V> {
    match first_index(s, k) {
        Some(i) => Some(s[i].1),
        None => None,
    }
}

/// No key occurs twice.
pub open spec fn keys_unique<K, V>(s: Seq<(K, V)>) -> bool {
    forall|i: int, j: int| 0 <= i < j < s.len() ==> s[i].0 != s[j].0
}

/// The keys of a keyed sequence, in order.
pub open spec fn keys_of<K, V>(s: Seq<(K, V)>) -> Seq<K> {
    s.map_values(|x: (K, V)| x.0)
}

pub proof fn lemma_first_index<K, V>(s: Seq<(K, V)>, k: K, i: int)
    requires
        0 <= i < s.len(),
        s[i].0 == k,
        forall|j: int| 0 <= j < i ==> s[j].0 != k,
    ensures
        first_index(s, k) == Some(i),
{
    let c = choose|c: int| 0 <= c < s.len() && s[c].0 == k && forall|j: int| 0 <= j < c ==> s[j].0 != k;
    assert(0 <= c < s.len() && s[c].0 == k && forall|j: int| 0 <= j < c ==> s[j].0 != k);
    if c < i {
        assert(s[c].0 != k);
    } else if c > i {
        assert(s[i].0 != k);
    }
}

/// The new strokes of an editing session and the committed strokes that it
/// replaces.
pub struct PlanDelta<G: Geometry> {
    pub new_strokes: Vec<LaneStroke<G>>,
    pub strokes_to_destroy: Vec<(BuiltLaneStrokeRef, LaneStroke<G>)>,
}

impl<G: Geometry> PlanDelta<G> {
    pub open spec fn strokes(&self) -> Seq<Seq<G::Node>> {
        stroke_views(self.new_strokes@)
    }

    pub open spec fn destroyed(&self) -> Seq<(BuiltLaneStrokeRef, Seq<G::Node>)> {
        keyed_views(self.strokes_to_destroy@)
    }

    /// Two deltas hold the same strokes.
    pub open spec fn same_as(&self, other: &Self) -> bool {
        self.strokes() == other.strokes() && self.destroyed() == other.destroyed()
    }

    pub fn copy(&self) -> (r: Self)
        ensures
            r.same_as(self),
    {
        PlanDelta {
            new_strokes: copy_strokes(&self.new_strokes),
            strokes_to_destroy: copy_keyed(&self.strokes_to_destroy),
        }
    }
}

/// The strokes committed before the editing session, by key.
pub struct BuiltStrokes<G: Geometry> {
    pub mapping: Vec<(BuiltLaneStrokeRef, LaneStroke<G>)>,
}

impl<G: Geometry> BuiltStrokes<G> {
    pub open spec fn strokes(&self) -> Seq<(BuiltLaneStrokeRef, Seq<G::Node>)> {
        keyed_views(self.mapping@)
    }

    /// The committed stroke under `r`.
    pub fn get(&self, r: BuiltLaneStrokeRef) -> (res: Option<&LaneStroke<G>>)
        ensures
            res is Some <==> lookup(self.strokes(), r) is Some,
            res is Some ==> res->Some_0@ == lookup(self.strokes(), r)->Some_0,
    {
        let mut i: usize = 0;
        while i < self.mapping.len()
            invariant
                i <= self.mapping@.len(),
                forall|j: int| 0 <= j < i ==> self.strokes()[j].0 != r,
            decreases self.mapping@.len() - i,
        {
            assert(self.strokes()[i as int] == (self.mapping@[i as int].0, self.mapping@[i as int].1@));
            if self.mapping[i].0 == r {
                proof {
                    lemma_first_index(self.strokes(), r, i as int);
                }
                return Some(&self.mapping[i].1);
            }
            i = i + 1;
        }
        assert(!exists|i: int| 0 <= i < self.strokes().len() && self.strokes()[i].0 == r);
        None
    }
}

/// The stroke that a reference designates, in the plan delta or among the
/// committed strokes.
pub open spec fn resolve<G: Geometry>(
    delta: PlanDelta<G>,
    built: BuiltStrokes<G>,
    r: SelectableStrokeRef,
) -> Option<Seq<G::Node>> {
    match r {
        SelectableStrokeRef::New(i) => if i < delta.strokes().len() {
            Some(delta.strokes()[i as int])
        } else {
            None
        },
        SelectableStrokeRef::Built(b) => lookup(built.strokes(), b),
    }
}

/// The stroke that `r` designates.
pub fn get_stroke<'a, G: Geometry>(
    r: SelectableStrokeRef,
    delta: &'a PlanDelta<G>,
    built: &'a BuiltStrokes<G>,
) -> (res: Option<&'a LaneStroke<G>>)
    ensures
        res is Some <==> resolve(*delta, *built, r) is Some,
        res is Some ==> res->Some_0@ == resolve(*delta, *built, r)->Some_0,
{
    match r {
        SelectableStrokeRef::New(i) => if i < delta.new_strokes.len() {
            Some(&delta.new_strokes[i])
        } else {
            None
        },
        SelectableStrokeRef::Built(b) => built.get(b),
    }
}

/// Editor options that the intents read.
#[derive(Clone, Copy, Debug)]
pub struct Settings {
    pub n_lanes_per_side: usize,
    pub create_both_sides: bool,
    pub select_parallel: bool,
    pub select_opposite: bool,
}

/// A selected range of a stroke: its reference and the arc-length
/// parameters of the range's start and end.
pub type Selection<G> = (SelectableStrokeRef, (<G as Geometry>::Scalar, <G as Geometry>::Scalar));

/// What the user asks of the plan next.
pub enum Intent<G: Geometry> {
    Idle,
    NewRoad(Vec<G::Point>),
    ContinueRoad(Vec<(LaneStrokeRef, ContinuationMode)>, Vec<G::Point>, G::Point),
    Select(SelectableStrokeRef, G::Scalar, G::Scalar),
    MaximizeSelection,
    MoveSelection(G::Vector),
    DeleteSelection,
    CreateNextLane,
}

impl<G: Geometry> Default for Intent<G> {
    fn default() -> (r: Self)
        ensures
            r is Idle,
    {
        Intent::Idle
    }
}

impl<G: Geometry> Intent<G> {
    /// Two intents ask for the same thing.
    pub open spec fn same_as(&self, other: &Self) -> bool {
        match (*self, *other) {
            (Intent::Idle, Intent::Idle) => true,
            (Intent::NewRoad(p), Intent::NewRoad(q)) => p@ == q@,
            (Intent::ContinueRoad(c, p, s), Intent::ContinueRoad(d, q, t)) => c@ == d@ && p@ == q@ && s == t,
            (Intent::Select(r, a, b), Intent::Select(s, c, d)) => r == s && a == c && b == d,
            (Intent::MaximizeSelection, Intent::MaximizeSelection) => true,
            (Intent::MoveSelection(v), Intent::MoveSelection(w)) => v == w,
            (Intent::DeleteSelection, Intent::DeleteSelection) => true,
            (Intent::CreateNextLane, Intent::CreateNextLane) => true,
            _ => false,
        }
    }

    pub fn copy(&self) -> (r: Self)
        ensures
            r.same_as(self),
    {
        match self {
            Intent::Idle => Intent::Idle,
            Intent::NewRoad(p) => Intent::NewRoad(copy_vec(p)),
            Intent::ContinueRoad(c, p, s) => Intent::ContinueRoad(copy_vec(c), copy_vec(p), *s),
            Intent::Select(r, a, b) => Intent::Select(*r, *a, *b),
            Intent::MaximizeSelection => Intent::MaximizeSelection,
            Intent::MoveSelection(v) => Intent::MoveSelection(*v),
            Intent::DeleteSelection => Intent::DeleteSelection,
            Intent::CreateNextLane => Intent::CreateNextLane,
        }
    }
}

/// A snapshot of the plan being edited.
pub struct PlanStep<G: Geometry> {
    pub plan_delta: PlanDelta<G>,
    pub selections: Vec<Selection<G>>,
    pub intent: Intent<G>,
}

impl<G: Geometry> PlanStep<G> {
    /// Each stroke is selected at most once.
    pub open spec fn inv(&self) -> bool {
        keys_unique(self.selections@)
    }

    /// Two snapshots are the same.
    pub open spec fn same_as(&self, other: &Self) -> bool {
        self.plan_delta.same_as(&other.plan_delta) && self.selections@ == other.selections@
            && self.intent.same_as(&other.intent)
    }

    pub fn copy(&self) -> (r: Self)
        ensures
            r.same_as(self),
    {
        PlanStep {
            plan_delta: self.plan_delta.copy(),
            selections: copy_vec(&self.selections),
            intent: self.intent.copy(),
        }
    }
}

} // verus!
