use vstd::prelude::*;
use crate::model::ContinuationMode;

verus! {

/// The curve capability that the plan editor consumes: points, tangent
/// directions, arc-length parameters and the strokes' derived paths.
///
/// Each operation depends on its arguments alone. Where the editor's
/// contracts need to speak of a result, the trait names it with a spec
/// function and the operation returns exactly that value. The editor's
/// proofs hold for every geometry, so these names stay opaque to them; the
/// default bodies only spare implementations written outside Verus from
/// spelling them out.
pub trait Geometry {
    /// A stroke node: a position with a unit tangent direction.
    type Node: Copy;
    /// A point in the plane; also used for plain direction vectors.
    type Point: Copy;
    /// A free vector, the displacement of a move.
    type Vector: Copy;
    /// An arc-length parameter along a stroke's path.
    type Scalar: Copy;

    closed spec fn spec_too_close(a: Self::Point, b: Self::Point) -> bool {
        arbitrary()
    }

    closed spec fn spec_continued_node(
        previous_reference: Self::Point,
        next_reference: Self::Point,
        terminal: Self::Node,
        mode: ContinuationMode,
    ) -> Self::Node {
        arbitrary()
    }

    closed spec fn spec_well_formed(nodes: Seq<Self::Node>) -> bool {
        arbitrary()
    }

    closed spec fn spec_road_node(start: Self::Point, toward: Self::Point, offset: nat, forward: bool) -> Self::Node {
        arbitrary()
    }

    closed spec fn spec_zero() -> Self::Scalar {
        arbitrary()
    }

    closed spec fn spec_length(nodes: Seq<Self::Node>) -> Self::Scalar {
        arbitrary()
    }

    closed spec fn spec_subsection(nodes: Seq<Self::Node>, start: Self::Scalar, end: Self::Scalar) -> Option<Seq<Self::Node>> {
        arbitrary()
    }

    closed spec fn spec_offset_node(node: Self::Node, distance: nat) -> Self::Node {
        arbitrary()
    }

    closed spec fn spec_strokes_roughly_within(a: Seq<Self::Node>, b: Seq<Self::Node>, tolerance_tenths: nat) -> bool {
        arbitrary()
    }

    closed spec fn spec_along(nodes: Seq<Self::Node>, t: Self::Scalar) -> Self::Point {
        arbitrary()
    }

    closed spec fn spec_direction_along(nodes: Seq<Self::Node>, t: Self::Scalar) -> Self::Point {
        arbitrary()
    }

    closed spec fn spec_project(nodes: Seq<Self::Node>, p: Self::Point) -> Option<Self::Scalar> {
        arbitrary()
    }

    closed spec fn spec_roughly_within(a: Self::Point, b: Self::Point, tolerance_tenths: nat) -> bool {
        arbitrary()
    }

    closed spec fn spec_negated(v: Self::Point) -> Self::Point {
        arbitrary()
    }

    closed spec fn spec_before(a: Self::Scalar, b: Self::Scalar) -> bool {
        arbitrary()
    }

    closed spec fn spec_node_position(node: Self::Node) -> Self::Point {
        arbitrary()
    }

    closed spec fn spec_right_of(a: Self::Node, b: Self::Node) -> bool {
        arbitrary()
    }

    closed spec fn spec_facing_same_way(a: Self::Node, b: Self::Node) -> bool {
        arbitrary()
    }

    closed spec fn spec_aligned_node(target: Self::Node, flip: bool, distance: nat) -> Self::Node {
        arbitrary()
    }

    closed spec fn spec_moved_subsection(
        nodes: Seq<Self::Node>,
        start: Self::Scalar,
        end: Self::Scalar,
        delta: Self::Vector,
    ) -> (Seq<Self::Node>, Option<Self::Node>, Seq<Self::Node>, Option<Self::Node>, Seq<Self::Node>) {
        arbitrary()
    }

    /// Whether `b` lies within the minimum segment length of `a`, so that no
    /// segment can be built between them.
    fn too_close(a: Self::Point, b: Self::Point) -> (r: bool)
        ensures
            r == Self::spec_too_close(a, b),
    ;

    /// The node that continues a stroke whose terminal node is `terminal`
    /// from `previous_reference` to `next_reference`: the arc from the old to
    /// the new reference point along the terminal direction (reversed for
    /// `Prepend`) gives the new direction, and the terminal node's offset from
    /// the old reference point is carried over into that direction's basis.
    fn continued_node(
        previous_reference: Self::Point,
        next_reference: Self::Point,
        terminal: Self::Node,
        mode: ContinuationMode,
    ) -> (r: Self::Node)
        ensures
            r == Self::spec_continued_node(previous_reference, next_reference, terminal, mode),
    ;

    /// Whether every consecutive pair of nodes forms a valid segment.
    fn well_formed(nodes: &Vec<Self::Node>) -> (r: bool)
        ensures
            r == Self::spec_well_formed(nodes@),
    ;

    /// The node at `start`, moved `offset` units along the right-hand
    /// perpendicular of the direction from `start` to `toward`, facing that
    /// direction when `forward`; else moved to the left and facing back.
    fn road_node(start: Self::Point, toward: Self::Point, offset: u64, forward: bool) -> (r: Self::Node)
        ensures
            r == Self::spec_road_node(start, toward, offset as nat, forward),
    ;

    /// The parameter of a path's start.
    fn zero() -> (r: Self::Scalar)
        ensures
            r == Self::spec_zero(),
    ;

    /// The arc length of the path through `nodes`.
    fn length(nodes: &Vec<Self::Node>) -> (r: Self::Scalar)
        ensures
            r == Self::spec_length(nodes@),
    ;

    /// The part of the path through `nodes` between two parameters, as nodes,
    /// if it is not degenerate.
    fn subsection(nodes: &Vec<Self::Node>, start: Self::Scalar, end: Self::Scalar) -> (r: Option<Vec<Self::Node>>)
        ensures
            r is Some <==> Self::spec_subsection(nodes@, start, end) is Some,
            r is Some ==> r->Some_0@ == Self::spec_subsection(nodes@, start, end)->Some_0,
    ;

    /// The node moved `distance` units along the right-hand perpendicular of
    /// its own direction, with the direction kept.
    fn offset_node(node: Self::Node, distance: u64) -> (r: Self::Node)
        ensures
            r == Self::spec_offset_node(node, distance as nat),
    ;

    /// Whether two strokes run within `tolerance_tenths` tenths of a unit of
    /// each other.
    fn strokes_roughly_within(a: &Vec<Self::Node>, b: &Vec<Self::Node>, tolerance_tenths: u64) -> (r: bool)
        ensures
            r == Self::spec_strokes_roughly_within(a@, b@, tolerance_tenths as nat),
    ;

    /// The position of the path through `nodes` at parameter `t`.
    fn along(nodes: &Vec<Self::Node>, t: Self::Scalar) -> (r: Self::Point)
        ensures
            r == Self::spec_along(nodes@, t),
    ;

    /// The unit direction of the path through `nodes` at parameter `t`.
    fn direction_along(nodes: &Vec<Self::Node>, t: Self::Scalar) -> (r: Self::Point)
        ensures
            r == Self::spec_direction_along(nodes@, t),
    ;

    /// The parameter of the point of the path nearest to `p`, if there is one.
    fn project(nodes: &Vec<Self::Node>, p: Self::Point) -> (r: Option<Self::Scalar>)
        ensures
            r == Self::spec_project(nodes@, p),
    ;

    /// Whether two points (or two directions) lie within
    /// `tolerance_tenths` tenths of a unit of each other.
    fn roughly_within(a: Self::Point, b: Self::Point, tolerance_tenths: u64) -> (r: bool)
        ensures
            r == Self::spec_roughly_within(a, b, tolerance_tenths as nat),
    ;

    /// The opposite direction.
    fn negated(v: Self::Point) -> (r: Self::Point)
        ensures
            r == Self::spec_negated(v),
    ;

    /// Whether parameter `a` lies strictly before parameter `b`.
    fn before(a: Self::Scalar, b: Self::Scalar) -> (r: bool)
        ensures
            r == Self::spec_before(a, b),
    ;

    /// The position of a node.
    fn node_position(node: Self::Node) -> (r: Self::Point)
        ensures
            r == Self::spec_node_position(node),
    ;

    /// Whether node `a` lies strictly to the right of node `b`, looking along
    /// `a`'s own direction.
    fn right_of(a: Self::Node, b: Self::Node) -> (r: bool)
        ensures
            r == Self::spec_right_of(a, b),
    ;

    /// Whether the directions of two nodes do not point against each other.
    fn facing_same_way(a: Self::Node, b: Self::Node) -> (r: bool)
        ensures
            r == Self::spec_facing_same_way(a, b),
    ;

    /// A node beside `target`: its direction is `target`'s (reversed when
    /// `flip`), its position `target`'s moved `distance` units along the
    /// right-hand perpendicular of that direction.
    fn aligned_node(target: Self::Node, flip: bool, distance: u64) -> (r: Self::Node)
        ensures
            r == Self::spec_aligned_node(target, flip, distance as nat),
    ;

    /// The stroke cut around the range from `start` to `end`, that range
    /// moved by `delta`, as nodes before the range, an optional connector
    /// before it, the moved range, an optional connector after it and the
    /// nodes after it.
    fn moved_subsection(
        nodes: &Vec<Self::Node>,
        start: Self::Scalar,
        end: Self::Scalar,
        delta: Self::Vector,
    ) -> (r: (Vec<Self::Node>, Option<Self::Node>, Vec<Self::Node>, Option<Self::Node>, Vec<Self::Node>))
        ensures
            (r.0@, r.1, r.2@, r.3, r.4@) == Self::spec_moved_subsection(nodes@, start, end, delta),
    ;
}

} // verus!
