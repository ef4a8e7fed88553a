use vstd::prelude::*;
use crate::geometry::Geometry;
use crate::model::{
    copy_vec, get_stroke, keys_unique, lookup, resolve, BuiltLaneStrokeRef, BuiltStrokes, LaneStroke, PlanDelta,
    PlanStep, SelectableStrokeRef, Selection, CENTER_LANE_DISTANCE, LANE_DISTANCE,
};

verus! {

/// Which connector of a moved range: the one before it or the one after it.
#[derive(Clone, Copy, PartialEq, Eq, Structural, Debug)]
pub enum Connector {
    Before,
    After,
}

/// A connector of the moved range of index `index`.
#[derive(Clone, Copy, PartialEq, Eq, Structural, Debug)]
pub struct ConnectorRef {
    pub index: usize,
    pub end: Connector,
}

/// A requirement that connector `align` be placed beside connector `to`.
#[derive(Clone, Copy, PartialEq, Eq, Structural, Debug)]
pub struct Alignment {
    pub align: ConnectorRef,
    pub to: ConnectorRef,
}

/// A selected stroke cut around its moved range.
pub struct MovedStroke<G: Geometry> {
    pub reference: SelectableStrokeRef,
    pub before: Vec<G::Node>,
    pub subsection: Vec<G::Node>,
    pub after: Vec<G::Node>,
}

/// Whether both nodes exist, lie within seven units of each other, and the
/// first lies to the right of the second.
pub open spec fn spec_close_and_right_of<G: Geometry>(a: Option<G::Node>, b: Option<G::Node>) -> bool {
    match (a, b) {
        (Some(x), Some(y)) => G::spec_roughly_within(G::spec_node_position(x), G::spec_node_position(y), 70)
            && G::spec_right_of(x, y),
        _ => false,
    }
}

fn close_and_right_of<G: Geometry>(a: Option<G::Node>, b: Option<G::Node>) -> (r: bool)
    ensures
        r == spec_close_and_right_of::<G>(a, b),
{
    match (a, b) {
        (Some(x), Some(y)) => G::roughly_within(G::node_position(x), G::node_position(y), 70)
            && G::right_of(x, y),
        _ => false,
    }
}

fn first_node<T: Copy>(v: &Vec<T>) -> (r: Option<T>)
    ensures
        r == (if v@.len() > 0 { Some(v@[0]) } else { None::<T> }),
{
    if v.len() > 0 {
        Some(v[0])
    } else {
        None
    }
}

fn last_node<T: Copy>(v: &Vec<T>) -> (r: Option<T>)
    ensures
        r == (if v@.len() > 0 { Some(v@.last()) } else { None::<T> }),
{
    if v.len() > 0 {
        Some(v[v.len() - 1])
    } else {
        None
    }
}

/// The connector that `c` designates.
pub open spec fn connector_at<N>(before: Seq<Option<N>>, after: Seq<Option<N>>, c: ConnectorRef) -> Option<N> {
    match c.end {
        Connector::Before => before[c.index as int],
        Connector::After => after[c.index as int],
    }
}

/// An alignment between two distinct moved ranges whose connectors both exist.
pub open spec fn valid_alignment<N>(before: Seq<Option<N>>, after: Seq<Option<N>>, a: Alignment) -> bool {
    &&& a.align.index < before.len() && a.to.index < before.len()
    &&& a.align.index != a.to.index
    &&& connector_at(before, after, a.align) is Some
    &&& connector_at(before, after, a.to) is Some
}

/// The first node of a range, if any.
pub open spec fn first_of<N>(s: Seq<N>) -> Option<N> {
    if s.len() > 0 {
        Some(s[0])
    } else {
        None
    }
}

/// The last node of a range, if any.
pub open spec fn last_of<N>(s: Seq<N>) -> Option<N> {
    if s.len() > 0 {
        Some(s.last())
    } else {
        None
    }
}

/// The alignments recorded after `r` for the ordered pair of moved ranges
/// `a`, `b`.
pub open spec fn pair_alignments<G: Geometry>(
    r: Seq<Alignment>,
    subs: Seq<Seq<G::Node>>,
    bcs: Seq<Option<G::Node>>,
    acs: Seq<Option<G::Node>>,
    a: usize,
    b: usize,
) -> Seq<Alignment> {
    let fa = first_of(subs[a as int]);
    let la = last_of(subs[a as int]);
    let fb = first_of(subs[b as int]);
    let lb = last_of(subs[b as int]);
    let a_before = ConnectorRef { index: a, end: Connector::Before };
    let a_after = ConnectorRef { index: a, end: Connector::After };
    let b_before = ConnectorRef { index: b, end: Connector::Before };
    let b_after = ConnectorRef { index: b, end: Connector::After };
    let r1 = if spec_close_and_right_of::<G>(fa, fb) && bcs[a as int] is Some && bcs[b as int] is Some {
        r.push(Alignment { align: a_before, to: b_before })
    } else {
        r
    };
    let r2 = if spec_close_and_right_of::<G>(fa, lb) && bcs[a as int] is Some && acs[b as int] is Some
        && !r1.contains(Alignment { align: b_after, to: a_before }) {
        r1.push(Alignment { align: a_before, to: b_after })
    } else {
        r1
    };
    let r3 = if spec_close_and_right_of::<G>(la, lb) && acs[a as int] is Some && acs[b as int] is Some {
        r2.push(Alignment { align: a_after, to: b_after })
    } else {
        r2
    };
    if spec_close_and_right_of::<G>(la, fb) && acs[a as int] is Some && bcs[b as int] is Some
        && !r3.contains(Alignment { align: b_before, to: a_after }) {
        r3.push(Alignment { align: a_after, to: b_before })
    } else {
        r3
    }
}

/// The alignments recorded after `r` for range `a` against the first `nb`
/// ranges.
pub open spec fn row_alignments<G: Geometry>(
    r: Seq<Alignment>,
    subs: Seq<Seq<G::Node>>,
    bcs: Seq<Option<G::Node>>,
    acs: Seq<Option<G::Node>>,
    a: usize,
    nb: nat,
) -> Seq<Alignment>
    decreases nb,
{
    if nb == 0 {
        r
    } else {
        let prev = row_alignments::<G>(r, subs, bcs, acs, a, (nb - 1) as nat);
        if a != (nb - 1) as usize {
            pair_alignments::<G>(prev, subs, bcs, acs, a, (nb - 1) as usize)
        } else {
            prev
        }
    }
}

/// The alignments recorded for the first `na` ranges against all ranges.
pub open spec fn all_alignments<G: Geometry>(
    subs: Seq<Seq<G::Node>>,
    bcs: Seq<Option<G::Node>>,
    acs: Seq<Option<G::Node>>,
    na: nat,
) -> Seq<Alignment>
    decreases na,
{
    if na == 0 {
        Seq::empty()
    } else {
        row_alignments::<G>(all_alignments::<G>(subs, bcs, acs, (na - 1) as nat), subs, bcs, acs, (na - 1) as usize, subs.len())
    }
}

/// The moved ranges of the cut strokes.
pub open spec fn moved_ranges<G: Geometry>(moved: Seq<MovedStroke<G>>) -> Seq<Seq<G::Node>> {
    moved.map_values(|m: MovedStroke<G>| m.subsection@)
}

fn push_alignment(v: &mut Vec<Alignment>, a: Alignment)
    ensures
        final(v)@ == old(v)@.push(a),
{
    v.push(a);
}

fn has_alignment(v: &Vec<Alignment>, a: Alignment) -> (r: bool)
    ensures
        r == v@.contains(a),
{
    let mut i: usize = 0;
    while i < v.len()
        invariant
            i <= v@.len(),
            forall|j: int| 0 <= j < i ==> v@[j] != a,
        decreases v@.len() - i,
    {
        if v[i] == a {
            return true;
        }
        i = i + 1;
    }
    false
}

/// The alignments between the connectors of the moved ranges. For every
/// ordered pair of distinct ranges `a`, `b`, a connector of `a` that lies
/// close to and right of a connector of `b` is aligned to it, when both
/// ranges have a connector at those ends; a joint already recorded the other
/// way round is not recorded again.
pub fn find_alignments<G: Geometry>(
    moved: &Vec<MovedStroke<G>>,
    before: &Vec<Option<G::Node>>,
    after: &Vec<Option<G::Node>>,
) -> (r: Vec<Alignment>)
    requires
        moved@.len() == before@.len(),
        moved@.len() == after@.len(),
    ensures
        forall|k: int| 0 <= k < r@.len() ==> valid_alignment(before@, after@, #[trigger] r@[k]),
        r@ == all_alignments::<G>(moved_ranges(moved@), before@, after@, moved@.len() as nat),
{
    let m = moved.len();
    let ghost subs = moved_ranges(moved@);
    let mut r: Vec<Alignment> = Vec::new();
    let mut a: usize = 0;
    while a < m
        invariant
            m == moved@.len(),
            m == before@.len(),
            m == after@.len(),
            a <= m,
            subs == moved_ranges(moved@),
            forall|k: int| 0 <= k < r@.len() ==> valid_alignment(before@, after@, #[trigger] r@[k]),
            r@ == all_alignments::<G>(subs, before@, after@, a as nat),
        decreases m - a,
    {
        let ghost row_start = r@;
        let mut b: usize = 0;
        while b < m
            invariant
                m == moved@.len(),
                m == before@.len(),
                m == after@.len(),
                a < m,
                b <= m,
                subs == moved_ranges(moved@),
                row_start == all_alignments::<G>(subs, before@, after@, a as nat),
                forall|k: int| 0 <= k < r@.len() ==> valid_alignment(before@, after@, #[trigger] r@[k]),
                r@ == row_alignments::<G>(row_start, subs, before@, after@, a, b as nat),
            decreases m - b,
        {
            let ghost r0 = r@;
            assert(subs[a as int] == moved@[a as int].subsection@);
            assert(subs[b as int] == moved@[b as int].subsection@);
            if a != b {
                let first_a = first_node(&moved[a].subsection);
                let last_a = last_node(&moved[a].subsection);
                let first_b = first_node(&moved[b].subsection);
                let last_b = last_node(&moved[b].subsection);
                let a_before = ConnectorRef { index: a, end: Connector::Before };
                let a_after = ConnectorRef { index: a, end: Connector::After };
                let b_before = ConnectorRef { index: b, end: Connector::Before };
                let b_after = ConnectorRef { index: b, end: Connector::After };
                if close_and_right_of::<G>(first_a, first_b) && before[a].is_some() && before[b].is_some() {
                    push_alignment(&mut r, Alignment { align: a_before, to: b_before });
                }
                if close_and_right_of::<G>(first_a, last_b) && before[a].is_some() && after[b].is_some()
                    && !has_alignment(&r, Alignment { align: b_after, to: a_before }) {
                    push_alignment(&mut r, Alignment { align: a_before, to: b_after });
                }
                if close_and_right_of::<G>(last_a, last_b) && after[a].is_some() && after[b].is_some() {
                    push_alignment(&mut r, Alignment { align: a_after, to: b_after });
                }
                if close_and_right_of::<G>(last_a, first_b) && after[a].is_some() && before[b].is_some()
                    && !has_alignment(&r, Alignment { align: b_before, to: a_after }) {
                    push_alignment(&mut r, Alignment { align: a_after, to: b_before });
                }
            }
            proof {
                let n1 = (b + 1) as nat;
                assert((n1 - 1) as usize == b);
                assert(r0 == row_alignments::<G>(row_start, subs, before@, after@, a, (n1 - 1) as nat));
                if a != b {
                    assert(r@ == pair_alignments::<G>(r0, subs, before@, after@, a, b));
                }
            }
            b = b + 1;
        }
        proof {
            let n1 = (a + 1) as nat;
            assert((n1 - 1) as usize == a);
            assert(subs.len() == m);
        }
        a = a + 1;
    }
    r
}

/// Whether some alignment of `v` places connector `c`.
fn places(v: &Vec<Alignment>, c: ConnectorRef) -> (r: bool)
    ensures
        r == exists|l: int| 0 <= l < v@.len() && v@[l].align == c,
{
    let mut i: usize = 0;
    while i < v.len()
        invariant
            i <= v@.len(),
            forall|l: int| 0 <= l < i ==> v@[l].align != c,
        decreases v@.len() - i,
    {
        if v[i].align == c {
            return true;
        }
        i = i + 1;
    }
    false
}

/// Every alignment's target is placed by an alignment of the same list.
pub open spec fn cyclic(v: Seq<Alignment>) -> bool {
    forall|j: int| 0 <= j < v.len() ==> exists|l: int| 0 <= l < v.len() && v[l].align == #[trigger] v[j].to
}

/// The first alignment whose target no alignment of `v` places.
fn first_ready(v: &Vec<Alignment>) -> (r: Option<usize>)
    ensures
        r is Some ==> r->Some_0 < v@.len() && forall|l: int| 0 <= l < v@.len() ==> v@[l].align != v@[r->Some_0 as int].to,
        r is None ==> cyclic(v@),
{
    let mut k: usize = 0;
    while k < v.len()
        invariant
            k <= v@.len(),
            forall|j: int| 0 <= j < k ==> exists|l: int| 0 <= l < v@.len() && v@[l].align == #[trigger] v@[j].to,
        decreases v@.len() - k,
    {
        if !places(v, v[k].to) {
            return Some(k);
        }
        k = k + 1;
    }
    None
}

/// An order of the alignments in which each connector is placed before any
/// alignment uses it as its target.
pub open spec fn dependency_ordered(v: Seq<Alignment>) -> bool {
    forall|i: int, j: int| 0 <= i < j < v.len() ==> v[i].to != v[j].align
}

/// `order` holds the alignments of `v`, as many, in dependency order.
pub open spec fn in_dependency_order(order: Seq<Alignment>, v: Seq<Alignment>) -> bool {
    &&& dependency_ordered(order)
    &&& order.len() == v.len()
    &&& forall|x: Alignment| order.contains(x) <==> v.contains(x)
}

/// The alignments put in dependency order, or `None` where they depend on
/// each other in a cycle and no such order exists.
pub fn order_alignments(v: &Vec<Alignment>) -> (r: Option<Vec<Alignment>>)
    ensures
        r is Some ==> dependency_ordered(r->Some_0@),
        r is Some ==> r->Some_0@.len() == v@.len(),
        r is Some ==> forall|x: Alignment| r->Some_0@.contains(x) <==> v@.contains(x),
        r is None ==> exists|s: Seq<Alignment>| s.len() > 0 && cyclic(s)
            && forall|i: int| 0 <= i < s.len() ==> v@.contains(#[trigger] s[i]),
{
    let mut remaining = copy_vec(v);
    let mut out: Vec<Alignment> = Vec::new();
    while remaining.len() > 0
        invariant
            out@.len() + remaining@.len() == v@.len(),
            dependency_ordered(out@),
            forall|i: int, l: int| 0 <= i < out@.len() && 0 <= l < remaining@.len() ==> out@[i].to != remaining@[l].align,
            forall|x: Alignment| v@.contains(x) <==> (out@.contains(x) || remaining@.contains(x)),
        decreases remaining@.len(),
    {
        let k = match first_ready(&remaining) {
            Some(k) => k,
            None => {
                proof {
                    assert forall|i: int| 0 <= i < remaining@.len() implies v@.contains(#[trigger] remaining@[i]) by {
                        assert(remaining@.contains(remaining@[i]));
                    }
                }
                return None;
            },
        };
        let ghost rem0 = remaining@;
        let ghost out0 = out@;
        let c = remaining.remove(k);
        out.push(c);
        proof {
            assert(rem0.remove(k as int) == remaining@);
            assert forall|l: int| 0 <= l < remaining@.len() implies remaining@[l] == rem0[if l < k { l } else { l + 1 }] by {}
            assert forall|i: int, j: int| 0 <= i < j < out@.len() implies out@[i].to != out@[j].align by {
                if j < out0.len() {
                    assert(out@[i] == out0[i] && out@[j] == out0[j]);
                } else {
                    assert(out@[j] == rem0[k as int]);
                    assert(out@[i] == out0[i]);
                }
            }
            assert forall|i: int, l: int| 0 <= i < out@.len() && 0 <= l < remaining@.len() implies out@[i].to != remaining@[l].align by {
                let l0 = if l < k { l } else { l + 1 };
                assert(remaining@[l] == rem0[l0]);
                if i < out0.len() {
                    assert(out@[i] == out0[i]);
                } else {
                    assert(out@[i] == rem0[k as int]);
                }
            }
            assert forall|x: Alignment| v@.contains(x) <==> (out@.contains(x) || remaining@.contains(x)) by {
                if out0.contains(x) {
                    let i = choose|i: int| 0 <= i < out0.len() && out0[i] == x;
                    assert(out@[i] == x);
                }
                if rem0.contains(x) {
                    let l0 = choose|l: int| 0 <= l < rem0.len() && rem0[l] == x;
                    if l0 < k {
                        assert(remaining@[l0] == x);
                    } else if l0 > k {
                        assert(remaining@[l0 - 1] == x);
                    } else {
                        assert(out@[out0.len() as int] == x);
                    }
                }
                if out@.contains(x) {
                    let i = choose|i: int| 0 <= i < out@.len() && out@[i] == x;
                    if i < out0.len() {
                        assert(out0[i] == x);
                    } else {
                        assert(rem0[k as int] == x);
                    }
                }
                if remaining@.contains(x) {
                    let l = choose|l: int| 0 <= l < remaining@.len() && remaining@[l] == x;
                    let l0 = if l < k { l } else { l + 1 };
                    assert(rem0[l0] == x);
                }
            }
        }
    }
    Some(out)
}

/// Both lists of connectors have the same length and hold a connector at the
/// same places.
pub open spec fn same_presence<N>(b0: Seq<Option<N>>, a0: Seq<Option<N>>, b1: Seq<Option<N>>, a1: Seq<Option<N>>) -> bool {
    &&& b1.len() == b0.len() && a1.len() == a0.len()
    &&& forall|i: int| 0 <= i < b0.len() ==> (b1[i] is Some <==> b0[i] is Some)
    &&& forall|i: int| 0 <= i < a0.len() ==> (a1[i] is Some <==> a0[i] is Some)
}

/// The connectors after placing the one that `a` aligns beside its target;
/// see `apply_alignment`.
pub open spec fn aligned<G: Geometry>(bcs: Seq<Option<G::Node>>, acs: Seq<Option<G::Node>>, a: Alignment) -> (Seq<Option<G::Node>>, Seq<Option<G::Node>>) {
    match (connector_at(bcs, acs, a.to), connector_at(bcs, acs, a.align)) {
        (Some(t), Some(n)) => {
            let flip = !G::spec_facing_same_way(n, t);
            let distance: nat = if flip { CENTER_LANE_DISTANCE as nat } else { LANE_DISTANCE as nat };
            let placed = G::spec_aligned_node(t, flip, distance);
            match a.align.end {
                Connector::Before => (bcs.update(a.align.index as int, Some(placed)), acs),
                Connector::After => (bcs, acs.update(a.align.index as int, Some(placed))),
            }
        },
        _ => (bcs, acs),
    }
}

/// The connectors after applying the first `n` alignments in order.
pub open spec fn aligned_all<G: Geometry>(
    bcs: Seq<Option<G::Node>>,
    acs: Seq<Option<G::Node>>,
    alignments: Seq<Alignment>,
    n: nat,
) -> (Seq<Option<G::Node>>, Seq<Option<G::Node>>)
    decreases n,
{
    if n == 0 {
        (bcs, acs)
    } else {
        let (b, a) = aligned_all::<G>(bcs, acs, alignments, (n - 1) as nat);
        aligned::<G>(b, a, alignments[n - 1])
    }
}

/// Places the connector that `a` aligns beside its target: it takes the
/// target's direction, reversed where the two point against each other, and
/// lies beside the target at the spacing of lanes running the same way, or at
/// the wider spacing of the road's center where they run against each other.
fn apply_alignment<G: Geometry>(before: &mut Vec<Option<G::Node>>, after: &mut Vec<Option<G::Node>>, a: Alignment)
    requires
        old(before)@.len() == old(after)@.len(),
        valid_alignment(old(before)@, old(after)@, a),
    ensures
        same_presence(old(before)@, old(after)@, final(before)@, final(after)@),
        (final(before)@, final(after)@) == aligned::<G>(old(before)@, old(after)@, a),
{
    let target = match a.to.end {
        Connector::Before => before[a.to.index],
        Connector::After => after[a.to.index],
    };
    let aligned_one = match a.align.end {
        Connector::Before => before[a.align.index],
        Connector::After => after[a.align.index],
    };
    if let (Some(t), Some(n)) = (target, aligned_one) {
        let flip = !G::facing_same_way(n, t);
        let distance = if flip { CENTER_LANE_DISTANCE } else { LANE_DISTANCE };
        let placed = G::aligned_node(t, flip, distance);
        match a.align.end {
            Connector::Before => before.set(a.align.index, Some(placed)),
            Connector::After => after.set(a.align.index, Some(placed)),
        }
    }
}

/// The node sequence of an optional node.
pub open spec fn opt_seq<N>(o: Option<N>) -> Seq<N> {
    match o {
        Some(x) => seq![x],
        None => Seq::<N>::empty(),
    }
}

fn append_all<T: Copy>(r: &mut Vec<T>, v: &Vec<T>)
    ensures
        final(r)@ == old(r)@ + v@,
{
    let ghost r0 = r@;
    let mut i: usize = 0;
    while i < v.len()
        invariant
            i <= v@.len(),
            r@ == r0 + v@.subrange(0, i as int),
        decreases v@.len() - i,
    {
        r.push(v[i]);
        i = i + 1;
        assert(r@ =~= r0 + v@.subrange(0, i as int));
    }
    assert(v@.subrange(0, i as int) =~= v@);
}

fn append_opt<T: Copy>(r: &mut Vec<T>, o: Option<T>)
    ensures
        final(r)@ == old(r)@ + opt_seq(o),
{
    if let Some(x) = o {
        r.push(x);
        assert(final(r)@ =~= old(r)@ + opt_seq(o));
    } else {
        assert(r@ =~= r@ + opt_seq(o));
    }
}

/// The nodes of a moved stroke put back together.
fn reassemble<G: Geometry>(m: &MovedStroke<G>, bc: Option<G::Node>, ac: Option<G::Node>) -> (r: Vec<G::Node>)
    ensures
        r@ == m.before@ + opt_seq(bc) + m.subsection@ + opt_seq(ac) + m.after@,
{
    let mut r = copy_vec(&m.before);
    append_opt(&mut r, bc);
    append_all(&mut r, &m.subsection);
    append_opt(&mut r, ac);
    append_all(&mut r, &m.after);
    r
}

/// A selected stroke cut around its range, as the geometry gives it: its
/// reference, then the nodes before the range, the connector before it, the
/// moved range, the connector after it and the nodes after it.
pub type Cut<G> = (
    SelectableStrokeRef,
    (Seq<<G as Geometry>::Node>, Option<<G as Geometry>::Node>, Seq<<G as Geometry>::Node>, Option<<G as Geometry>::Node>, Seq<<G as Geometry>::Node>),
);

/// The selected strokes that resolve, in order, cut around their ranges and
/// with the ranges moved by `delta`.
pub open spec fn cuts<G: Geometry>(sels: Seq<Selection<G>>, plan: PlanDelta<G>, built: BuiltStrokes<G>, delta: G::Vector) -> Seq<Cut<G>>
    decreases sels.len(),
{
    if sels.len() == 0 {
        Seq::empty()
    } else {
        let prev = cuts::<G>(sels.drop_last(), plan, built, delta);
        let (r, (start, end)) = sels.last();
        match resolve(plan, built, r) {
            Some(nodes) => prev.push((r, G::spec_moved_subsection(nodes, start, end, delta))),
            None => prev,
        }
    }
}

/// Each cut stroke is that of a selection.
proof fn lemma_cuts_from_selections<G: Geometry>(sels: Seq<Selection<G>>, plan: PlanDelta<G>, built: BuiltStrokes<G>, delta: G::Vector)
    ensures
        forall|k: int| 0 <= k < cuts::<G>(sels, plan, built, delta).len() ==> exists|s: int| 0 <= s < sels.len()
            && sels[s].0 == #[trigger] cuts::<G>(sels, plan, built, delta)[k].0,
    decreases sels.len(),
{
    if sels.len() > 0 {
        let rest = sels.drop_last();
        lemma_cuts_from_selections::<G>(rest, plan, built, delta);
        let prev = cuts::<G>(rest, plan, built, delta);
        let cut = cuts::<G>(sels, plan, built, delta);
        assert forall|k: int| 0 <= k < cut.len() implies exists|s: int| 0 <= s < sels.len() && sels[s].0 == #[trigger] cut[k].0 by {
            if k < prev.len() {
                assert(cut[k] == prev[k]);
                let s = choose|s: int| 0 <= s < rest.len() && rest[s].0 == prev[k].0;
                assert(rest[s] == sels[s]);
            } else {
                assert(sels[sels.len() - 1].0 == cut[k].0);
            }
        }
    }
}

/// The cut strokes are those of distinct selections.
proof fn lemma_cuts_distinct<G: Geometry>(sels: Seq<Selection<G>>, plan: PlanDelta<G>, built: BuiltStrokes<G>, delta: G::Vector)
    requires
        keys_unique(sels),
    ensures
        forall|a: int, b: int| 0 <= a < b < cuts::<G>(sels, plan, built, delta).len()
            ==> cuts::<G>(sels, plan, built, delta)[a].0 != cuts::<G>(sels, plan, built, delta)[b].0,
    decreases sels.len(),
{
    if sels.len() > 0 {
        let rest = sels.drop_last();
        assert(keys_unique(rest)) by {
            assert forall|a: int, b: int| 0 <= a < b < rest.len() implies rest[a].0 != rest[b].0 by {
                assert(rest[a] == sels[a] && rest[b] == sels[b]);
            }
        }
        lemma_cuts_distinct::<G>(rest, plan, built, delta);
        lemma_cuts_from_selections::<G>(rest, plan, built, delta);
        let prev = cuts::<G>(rest, plan, built, delta);
        let last = sels.last();
        assert forall|k: int| 0 <= k < prev.len() implies prev[k].0 != last.0 by {
            let s = choose|s: int| 0 <= s < rest.len() && rest[s].0 == #[trigger] prev[k].0;
            assert(rest[s] == sels[s]);
        }
    }
}

/// Each cut stroke resolves.
proof fn lemma_cuts_resolve<G: Geometry>(sels: Seq<Selection<G>>, plan: PlanDelta<G>, built: BuiltStrokes<G>, delta: G::Vector)
    ensures
        forall|k: int| 0 <= k < cuts::<G>(sels, plan, built, delta).len() ==>
            resolve(plan, built, #[trigger] cuts::<G>(sels, plan, built, delta)[k].0) is Some,
    decreases sels.len(),
{
    if sels.len() > 0 {
        lemma_cuts_resolve::<G>(sels.drop_last(), plan, built, delta);
    }
}

/// The plan's strokes, the strokes recorded for destruction and the
/// selections, as a move builds them.
pub type MoveState<G> = (Seq<Seq<<G as Geometry>::Node>>, Seq<(BuiltLaneStrokeRef, Seq<<G as Geometry>::Node>)>, Seq<Selection<G>>);

/// One cut stroke put back together with the connectors `bc` and `ac` and
/// placed in the plan: a new stroke is replaced in place, a committed one is
/// recorded for destruction and its new shape appended, and the moved range,
/// projected onto the new shape, is selected. Where the stroke is not well
/// formed, its moved range is empty or does not project, nothing changes.
pub open spec fn rebuild_one<G: Geometry>(state: MoveState<G>, cut: Cut<G>, bc: Option<G::Node>, ac: Option<G::Node>, built: BuiltStrokes<G>) -> MoveState<G> {
    let (strokes, destroyed, sels) = state;
    let (r, (before, _, sub, _, after)) = cut;
    let nodes = before + opt_seq(bc) + sub + opt_seq(ac) + after;
    if G::spec_well_formed(nodes) && sub.len() > 0 {
        match (G::spec_project(nodes, G::spec_node_position(sub[0])), G::spec_project(nodes, G::spec_node_position(sub.last()))) {
            (Some(start), Some(end)) => match r {
                SelectableStrokeRef::New(idx) => if idx < strokes.len() {
                    (strokes.update(idx as int, nodes), destroyed, sels.push((SelectableStrokeRef::New(idx), (start, end))))
                } else {
                    state
                },
                SelectableStrokeRef::Built(b) => match lookup(built.strokes(), b) {
                    Some(old) => if strokes.len() < usize::MAX {
                        (strokes.push(nodes), destroyed.push((b, old)), sels.push((SelectableStrokeRef::New(strokes.len() as usize), (start, end))))
                    } else {
                        state
                    },
                    None => state,
                },
            },
            _ => state,
        }
    } else {
        state
    }
}

/// The first `n` cut strokes put back together in order, with the
/// connectors `bcs` and `acs`.
pub open spec fn rebuild_all<G: Geometry>(
    state: MoveState<G>,
    cut: Seq<Cut<G>>,
    bcs: Seq<Option<G::Node>>,
    acs: Seq<Option<G::Node>>,
    built: BuiltStrokes<G>,
    n: nat,
) -> MoveState<G>
    decreases n,
{
    if n == 0 {
        state
    } else {
        let prev = rebuild_all::<G>(state, cut, bcs, acs, built, (n - 1) as nat);
        rebuild_one::<G>(prev, cut[n - 1], bcs[n - 1], acs[n - 1], built)
    }
}

/// The moved ranges, as cut.
pub open spec fn ranges_of<G: Geometry>(cut: Seq<Cut<G>>) -> Seq<Seq<G::Node>> {
    cut.map_values(|c: Cut<G>| c.1.2)
}

/// The connectors before the moved ranges, as cut.
pub open spec fn before_connectors_of<G: Geometry>(cut: Seq<Cut<G>>) -> Seq<Option<G::Node>> {
    cut.map_values(|c: Cut<G>| c.1.1)
}

/// The connectors after the moved ranges, as cut.
pub open spec fn after_connectors_of<G: Geometry>(cut: Seq<Cut<G>>) -> Seq<Option<G::Node>> {
    cut.map_values(|c: Cut<G>| c.1.3)
}

/// What a move may make of the plan delta: strokes kept or replaced by well
/// formed ones, well formed strokes appended, and committed strokes recorded
/// for destruction as the store holds them.
pub open spec fn move_result<G: Geometry>(d0: PlanDelta<G>, d1: PlanDelta<G>, built: BuiltStrokes<G>) -> bool {
    &&& d1.strokes().len() >= d0.strokes().len()
    &&& forall|i: int| 0 <= i < d0.strokes().len() ==>
        d1.strokes()[i] == d0.strokes()[i] || G::spec_well_formed(d1.strokes()[i])
    &&& forall|i: int| d0.strokes().len() <= i < d1.strokes().len() ==> G::spec_well_formed(d1.strokes()[i])
    &&& d1.destroyed().len() >= d0.destroyed().len()
    &&& forall|j: int| 0 <= j < d0.destroyed().len() ==> d1.destroyed()[j] == d0.destroyed()[j]
    &&& forall|j: int| d0.destroyed().len() <= j < d1.destroyed().len() ==>
        lookup(built.strokes(), d1.destroyed()[j].0) == Some(d1.destroyed()[j].1)
}

/// Puts the cut strokes back together with the connectors `before_connectors`
/// and `after_connectors` and places them in the plan; see `rebuild_all`.
#[verifier::rlimit(80)]
fn rebuild_moved<G: Geometry>(
    moved: &Vec<MovedStroke<G>>,
    before_connectors: &Vec<Option<G::Node>>,
    after_connectors: &Vec<Option<G::Node>>,
    current: &PlanStep<G>,
    built: &BuiltStrokes<G>,
    Ghost(cut): Ghost<Seq<Cut<G>>>,
    Ghost(delta): Ghost<G::Vector>,
) -> (r: (PlanDelta<G>, Vec<Selection<G>>))
    requires
        cut == cuts::<G>(current.selections@, current.plan_delta, *built, delta),
        before_connectors@.len() == moved@.len(),
        after_connectors@.len() == moved@.len(),
        moved@.len() <= current.selections@.len(),
        cut.len() == moved@.len(),
        forall|k: int| 0 <= k < cut.len() ==> (#[trigger] moved@[k]).reference == cut[k].0
            && moved@[k].before@ == cut[k].1.0 && moved@[k].subsection@ == cut[k].1.2
            && moved@[k].after@ == cut[k].1.4,
    ensures
        move_result(current.plan_delta, r.0, *built),
        r.1@.len() <= moved@.len(),
        forall|k: int| 0 <= k < r.1@.len() ==> (match #[trigger] r.1@[k].0 {
            SelectableStrokeRef::New(j) => j < r.0.strokes().len(),
            SelectableStrokeRef::Built(_) => false,
        }),
        current.inv() ==> keys_unique(r.1@),
        (r.0.strokes(), r.0.destroyed(), r.1@) == rebuild_all::<G>(
            (current.plan_delta.strokes(), current.plan_delta.destroyed(), Seq::empty()),
            cut,
            before_connectors@,
            after_connectors@,
            *built,
            cut.len(),
        ),
{
    proof {
        if current.inv() {
            lemma_cuts_distinct::<G>(current.selections@, current.plan_delta, *built, delta);
        }
        lemma_cuts_resolve::<G>(current.selections@, current.plan_delta, *built, delta);
    }
    let mut new_delta = current.plan_delta.copy();
    let mut selections: Vec<Selection<G>> = Vec::new();
    let mut i: usize = 0;
    while i < moved.len()
        invariant
            i <= moved@.len(),
            before_connectors@.len() == moved@.len(),
            after_connectors@.len() == moved@.len(),
            move_result(current.plan_delta, new_delta, *built),
            selections@.len() <= i,
            moved@.len() <= current.selections@.len(),
            forall|k: int| 0 <= k < selections@.len() ==> (match #[trigger] selections@[k].0 {
                SelectableStrokeRef::New(j) => j < new_delta.strokes().len(),
                SelectableStrokeRef::Built(_) => false,
            }),
            cut.len() == moved@.len(),
            current.inv() ==> forall|a: int, b: int| 0 <= a < b < cut.len() ==> cut[a].0 != cut[b].0,
            forall|k: int| 0 <= k < cut.len() ==> resolve(current.plan_delta, *built, #[trigger] cut[k].0) is Some,
            current.inv() ==> keys_unique(selections@),
            current.inv() ==> forall|k: int, c: int| 0 <= k < selections@.len() && i <= c < cut.len()
                ==> #[trigger] selections@[k].0 != #[trigger] cut[c].0,
            forall|k: int| 0 <= k < cut.len() ==> (#[trigger] moved@[k]).reference == cut[k].0
                && moved@[k].before@ == cut[k].1.0 && moved@[k].subsection@ == cut[k].1.2
                && moved@[k].after@ == cut[k].1.4,
            (new_delta.strokes(), new_delta.destroyed(), selections@) == rebuild_all::<G>(
                (current.plan_delta.strokes(), current.plan_delta.destroyed(), Seq::empty()),
                cut,
                before_connectors@,
                after_connectors@,
                *built,
                i as nat,
            ),
        decreases moved@.len() - i,
    {
        let ghost state0 = (new_delta.strokes(), new_delta.destroyed(), selections@);
        assert(moved@[i as int].reference == cut[i as int].0);
        let m = &moved[i];
        let nodes = reassemble(m, before_connectors[i], after_connectors[i]);
        if G::well_formed(&nodes) && m.subsection.len() > 0 {
            let first = G::node_position(m.subsection[0]);
            let last = G::node_position(m.subsection[m.subsection.len() - 1]);
            if let (Some(start), Some(end)) = (G::project(&nodes, first), G::project(&nodes, last)) {
                let ghost d0 = new_delta;
                match m.reference {
                    SelectableStrokeRef::New(idx) => {
                        if idx < new_delta.new_strokes.len() {
                            new_delta.new_strokes.set(idx, LaneStroke { nodes });
                            proof {
                                assert forall|j: int| 0 <= j < new_delta.strokes().len() && j != idx implies new_delta.strokes()[j] == d0.strokes()[j] by {
                                    assert(new_delta.new_strokes@[j] == d0.new_strokes@[j]);
                                }
                                assert(new_delta.strokes()[idx as int] == nodes@);
                            }
                            let ghost sel0 = selections@;
                            selections.push((SelectableStrokeRef::New(idx), (start, end)));
                            proof {
                                if current.inv() {
                                    assert forall|a: int, b: int| 0 <= a < b < selections@.len() implies selections@[a].0 != selections@[b].0 by {
                                        if b < sel0.len() {
                                            assert(selections@[a] == sel0[a] && selections@[b] == sel0[b]);
                                        } else {
                                            assert(selections@[a] == sel0[a]);
                                            assert(sel0[a].0 != cut[i as int].0);
                                        }
                                    }
                                    assert forall|k: int, c: int| 0 <= k < selections@.len() && i + 1 <= c < cut.len()
                                        implies #[trigger] selections@[k].0 != #[trigger] cut[c].0 by {
                                        if k < sel0.len() {
                                            assert(selections@[k] == sel0[k]);
                                        } else {
                                            assert(cut[i as int].0 != cut[c].0);
                                        }
                                    }
                                }
                            }
                        }
                    },
                    SelectableStrokeRef::Built(b) => {
                        if let Some(old_stroke) = built.get(b) {
                            if new_delta.new_strokes.len() < usize::MAX {
                                new_delta.strokes_to_destroy.push((b, old_stroke.copy()));
                                new_delta.new_strokes.push(LaneStroke { nodes });
                                proof {
                                    assert forall|j: int| 0 <= j < d0.strokes().len() implies new_delta.strokes()[j] == d0.strokes()[j] by {
                                        assert(new_delta.new_strokes@[j] == d0.new_strokes@[j]);
                                    }
                                    assert(new_delta.strokes()[d0.strokes().len() as int] == nodes@);
                                    assert forall|j: int| 0 <= j < d0.destroyed().len() implies new_delta.destroyed()[j] == d0.destroyed()[j] by {
                                        assert(new_delta.strokes_to_destroy@[j] == d0.strokes_to_destroy@[j]);
                                    }
                                    assert(new_delta.destroyed()[d0.destroyed().len() as int] == (b, old_stroke@));
                                }
                                let ghost sel0 = selections@;
                                let fresh = new_delta.new_strokes.len() - 1;
                                selections.push((SelectableStrokeRef::New(fresh), (start, end)));
                                proof {
                                    assert(fresh == d0.strokes().len());
                                    assert forall|a: int, b: int| 0 <= a < b < selections@.len() && current.inv() implies selections@[a].0 != selections@[b].0 by {
                                        assert(selections@[a] == sel0[a]);
                                        if b < sel0.len() {
                                            assert(selections@[b] == sel0[b]);
                                        }
                                    }
                                    assert forall|k: int, c: int| 0 <= k < selections@.len() && i + 1 <= c < cut.len() && current.inv()
                                        implies #[trigger] selections@[k].0 != #[trigger] cut[c].0 by {
                                        assert(resolve(current.plan_delta, *built, cut[c].0) is Some);
                                        if k < sel0.len() {
                                            assert(selections@[k] == sel0[k]);
                                        }
                                    }
                                }
                            }
                        }
                    },
                }
            }
        }
        proof {
            let n1 = (i + 1) as nat;
            assert((n1 - 1) as nat == i as nat);
            assert(rebuild_all::<G>(
                (current.plan_delta.strokes(), current.plan_delta.destroyed(), Seq::empty()),
                cut,
                before_connectors@,
                after_connectors@,
                *built,
                n1,
            ) == rebuild_one::<G>(state0, cut[i as int], before_connectors@[i as int], after_connectors@[i as int], *built));
            assert((new_delta.strokes(), new_delta.destroyed(), selections@) == rebuild_one::<G>(
                state0,
                cut[i as int],
                before_connectors@[i as int],
                after_connectors@[i as int],
                *built,
            ));
        }
        i = i + 1;
    }
    (new_delta, selections)
}

/// Moves the selected ranges by `delta`. Each selected stroke is cut around
/// its range, the range is moved, the connectors of ranges that meet are
/// aligned, in dependency order (in the order found where the alignments
/// depend on each other in a cycle, which has no such order), and the stroke
/// is put back together. A
/// stroke that is then not well formed keeps its old shape and loses its
/// selection. A new stroke is replaced in place; a committed one is recorded
/// for destruction and its new shape appended. The result selects exactly the
/// rebuilt strokes, at their moved ranges.
pub fn apply_move_selection<G: Geometry>(delta: G::Vector, current: &PlanStep<G>, built: &BuiltStrokes<G>) -> (r: PlanStep<G>)
    ensures
        current.inv() ==> r.inv(),
        ({
            let cut = cuts::<G>(current.selections@, current.plan_delta, *built, delta);
            let bcs = before_connectors_of::<G>(cut);
            let acs = after_connectors_of::<G>(cut);
            let found = all_alignments::<G>(ranges_of::<G>(cut), bcs, acs, cut.len());
            exists|order: Seq<Alignment>|
                (order == found || in_dependency_order(order, found))
                && (r.plan_delta.strokes(), r.plan_delta.destroyed(), r.selections@) == rebuild_all::<G>(
                    (current.plan_delta.strokes(), current.plan_delta.destroyed(), Seq::empty()),
                    cut,
                    #[trigger] aligned_all::<G>(bcs, acs, order, order.len()).0,
                    aligned_all::<G>(bcs, acs, order, order.len()).1,
                    *built,
                    cut.len(),
                )
        }),
        move_result(current.plan_delta, r.plan_delta, *built),
        r.selections@.len() <= current.selections@.len(),
        forall|k: int| 0 <= k < r.selections@.len() ==> (match #[trigger] r.selections@[k].0 {
            SelectableStrokeRef::New(i) => i < r.plan_delta.strokes().len(),
            SelectableStrokeRef::Built(_) => false,
        }),
        r.intent.same_as(&current.intent),
{
    let mut moved: Vec<MovedStroke<G>> = Vec::new();
    let mut before_connectors: Vec<Option<G::Node>> = Vec::new();
    let mut after_connectors: Vec<Option<G::Node>> = Vec::new();
    let ghost cut = cuts::<G>(current.selections@, current.plan_delta, *built, delta);
    let mut i: usize = 0;
    while i < current.selections.len()
        invariant
            i <= current.selections@.len(),
            cut == cuts::<G>(current.selections@, current.plan_delta, *built, delta),
            moved@.len() <= i,
            before_connectors@.len() == moved@.len(),
            after_connectors@.len() == moved@.len(),
            ({
                let c = cuts::<G>(current.selections@.subrange(0, i as int), current.plan_delta, *built, delta);
                &&& c.len() == moved@.len()
                &&& forall|k: int| 0 <= k < c.len() ==> (#[trigger] moved@[k]).reference == c[k].0
                    && moved@[k].before@ == c[k].1.0 && moved@[k].subsection@ == c[k].1.2
                    && moved@[k].after@ == c[k].1.4
                    && before_connectors@[k] == c[k].1.1 && after_connectors@[k] == c[k].1.3
            }),
        decreases current.selections@.len() - i,
    {
        let (reference, (start, end)) = current.selections[i];
        assert(current.selections@.subrange(0, i + 1).drop_last() =~= current.selections@.subrange(0, i as int));
        if let Some(stroke) = get_stroke(reference, &current.plan_delta, built) {
            let (b, bc, s, ac, a) = G::moved_subsection(stroke.nodes(), start, end, delta);
            moved.push(MovedStroke { reference, before: b, subsection: s, after: a });
            before_connectors.push(bc);
            after_connectors.push(ac);
        }
        i = i + 1;
    }
    assert(current.selections@.subrange(0, i as int) =~= current.selections@);
    assert(cuts::<G>(current.selections@.subrange(0, i as int), current.plan_delta, *built, delta) == cut);
    assert forall|k: int| 0 <= k < cut.len() implies before_connectors@[k] == cut[k].1.1 && after_connectors@[k] == cut[k].1.3 by {
        assert(moved@[k].reference == cut[k].0);
    }
    assert(before_connectors@ =~= before_connectors_of::<G>(cut));
    assert(moved_ranges(moved@) =~= ranges_of::<G>(cut));
    assert(after_connectors@ =~= after_connectors_of::<G>(cut));

    let found = find_alignments(&moved, &before_connectors, &after_connectors);
    let ghost found_v = found@;
    let ordered = order_alignments(&found);
    let alignments = match ordered {
        Some(ordered) => ordered,
        None => found,
    };
    proof {
        assert forall|j: int| 0 <= j < alignments@.len() implies valid_alignment(before_connectors@, after_connectors@, #[trigger] alignments@[j]) by {
            assert(alignments@.contains(alignments@[j]));
            assert(found@.contains(alignments@[j]));
            let t = choose|t: int| 0 <= t < found@.len() && found@[t] == alignments@[j];
            assert(valid_alignment(before_connectors@, after_connectors@, found@[t]));
        }
    }
    let ghost b0 = before_connectors@;
    let ghost a0 = after_connectors@;
    assert(alignments@ == found_v || in_dependency_order(alignments@, found_v));
    let mut k: usize = 0;
    while k < alignments.len()
        invariant
            k <= alignments@.len(),
            b0.len() == a0.len(),
            forall|j: int| 0 <= j < alignments@.len() ==> valid_alignment(b0, a0, #[trigger] alignments@[j]),
            same_presence(b0, a0, before_connectors@, after_connectors@),
            (before_connectors@, after_connectors@) == aligned_all::<G>(b0, a0, alignments@, k as nat),
            alignments@ == found_v || in_dependency_order(alignments@, found_v),
        decreases alignments@.len() - k,
    {
        let a = alignments[k];
        proof {
            let n1 = (k + 1) as nat;
            assert((n1 - 1) as nat == k as nat);
        }
        assert(valid_alignment(b0, a0, alignments@[k as int]));
        apply_alignment::<G>(&mut before_connectors, &mut after_connectors, a);
        k = k + 1;
    }

    let (new_delta, selections) = rebuild_moved(
        &moved,
        &before_connectors,
        &after_connectors,
        current,
        built,
        Ghost(cut),
        Ghost(delta),
    );

    proof {
        let order = alignments@;
        let fin = aligned_all::<G>(b0, a0, order, order.len());
        assert(fin.0 == before_connectors@ && fin.1 == after_connectors@);
        assert((new_delta.strokes(), new_delta.destroyed(), selections@) == rebuild_all::<G>(
            (current.plan_delta.strokes(), current.plan_delta.destroyed(), Seq::empty()),
            cut,
            fin.0,
            fin.1,
            *built,
            cut.len(),
        ));
        let bcs = before_connectors_of::<G>(cut);
        let acs = after_connectors_of::<G>(cut);
        let found = all_alignments::<G>(ranges_of::<G>(cut), bcs, acs, cut.len());
        assert(found == found_v);
        assert((order == found || in_dependency_order(order, found))
            && (new_delta.strokes(), new_delta.destroyed(), selections@) == rebuild_all::<G>(
                (current.plan_delta.strokes(), current.plan_delta.destroyed(), Seq::empty()),
                cut,
                aligned_all::<G>(bcs, acs, order, order.len()).0,
                aligned_all::<G>(bcs, acs, order, order.len()).1,
                *built,
                cut.len(),
            ));
    }
    PlanStep { plan_delta: new_delta, selections, intent: current.intent.copy() }
}

} // verus!
