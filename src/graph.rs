//! The mathematical model of a diagram: vertices with legs and slots, the
//! well-formedness of a diagram, joining legs, and reachability.
use vstd::prelude::*;
use crate::field::FieldView;

verus! {

/// The direction of an external leg.
#[derive(Clone, Copy, PartialEq, Eq, Structural, Debug)]
pub enum Inout {
    In,
    Out,
    Unknown,
}

/// Where a vertex stands in the search: not reached yet, reached with work
/// left (the frontier), or done.
#[derive(Clone, Copy, PartialEq, Eq, Structural, Debug)]
pub enum Marker {
    Untouched,
    Frontier,
    Consumed,
}

/// A slot of a leg: open (`None`), or the vertex and leg it is joined to.
pub type Slot = Option<(usize, usize)>;

/// The mathematical value of a vertex: the field of each leg, the slot of
/// each leg, the search marker, and the direction of an external leg
/// (`None` for an instance of a term).
pub struct VertexView {
    pub legs: Seq<FieldView>,
    pub adj: Seq<Slot>,
    pub marker: Marker,
    pub direction: Option<Inout>,
}

/// The mathematical value of a diagram: its vertices, and the number of open
/// legs that it records.
pub struct DiagramView {
    pub vertices: Seq<VertexView>,
    pub left: nat,
}

/// The number of open slots.
pub open spec fn open_count(adj: Seq<Slot>) -> nat
    decreases adj.len(),
{
    if adj.len() == 0 {
        0
    } else {
        open_count(adj.drop_last()) + if adj.last() is None { 1nat } else { 0nat }
    }
}

/// The number of open slots over all vertices.
pub open spec fn open_total(vs: Seq<VertexView>) -> nat
    decreases vs.len(),
{
    if vs.len() == 0 {
        0
    } else {
        open_total(vs.drop_last()) + open_count(vs.last().adj)
    }
}

/// A vertex with one slot per leg, and one to four legs.
pub open spec fn vertex_ok(v: VertexView) -> bool {
    v.adj.len() == v.legs.len() && 1 <= v.legs.len() <= 4
}

/// A vertex none of whose legs is joined yet.
pub open spec fn vertex_fresh(v: VertexView) -> bool {
    vertex_ok(v) && forall|k: int| 0 <= k < v.adj.len() ==> #[trigger] v.adj[k] is None
}

/// The slot of leg `k` of vertex `i`, when it is joined, points back at it
/// from a leg of the conjugate field.
pub open spec fn slot_ok(d: DiagramView, i: int, k: int) -> bool {
    d.vertices[i].adj[k] matches Some(t) ==> {
        let j = t.0 as int;
        let kj = t.1 as int;
        &&& 0 <= j < d.vertices.len()
        &&& 0 <= kj < d.vertices[j].adj.len()
        &&& (j, kj) != (i, k)
        &&& d.vertices[j].adj[kj] == Some((i as usize, k as usize))
        &&& d.vertices[j].legs[kj] == d.vertices[i].legs[k].anti()
    }
}

/// A well-formed diagram: every vertex well-formed, every joined slot
/// mirrored by its partner, and the recorded count of open legs exact.
pub open spec fn wf(d: DiagramView) -> bool {
    &&& forall|i: int| 0 <= i < d.vertices.len() ==> vertex_ok(#[trigger] d.vertices[i])
    &&& forall|i: int, k: int|
        0 <= i < d.vertices.len() && 0 <= k < d.vertices[i].adj.len() ==> #[trigger] slot_ok(d, i, k)
    &&& d.left == open_total(d.vertices)
}

/// `d2` is `d1` with more legs joined: the same vertices, legs and
/// directions, and every join of `d1` kept.
pub open spec fn extends(d2: DiagramView, d1: DiagramView) -> bool {
    &&& d2.vertices.len() == d1.vertices.len()
    &&& forall|i: int| 0 <= i < d1.vertices.len() ==> (#[trigger] d2.vertices[i]).legs == d1.vertices[i].legs
        && d2.vertices[i].direction == d1.vertices[i].direction
    &&& forall|i: int, k: int|
        0 <= i < d1.vertices.len() && 0 <= k < d1.vertices[i].adj.len() && d1.vertices[i].adj[k] is Some
        ==> #[trigger] d2.vertices[i].adj[k] == d1.vertices[i].adj[k]
}

/// `d` with slot `k` of vertex `i` set to `t`.
pub open spec fn set_slot(d: DiagramView, i: int, k: int, t: Slot) -> DiagramView {
    DiagramView {
        vertices: d.vertices.update(
            i,
            VertexView { adj: d.vertices[i].adj.update(k, t), ..d.vertices[i] },
        ),
        left: d.left,
    }
}

/// `d` with leg `ki` of vertex `i` joined to leg `kj` of vertex `j`.
pub open spec fn link(d: DiagramView, i: usize, ki: usize, j: usize, kj: usize) -> DiagramView {
    let d2 = set_slot(set_slot(d, i as int, ki as int, Some((j, kj))), j as int, kj as int, Some((i, ki)));
    DiagramView { left: (d.left - 2) as nat, ..d2 }
}

/// `d` with the marker of vertex `i` set to `m`.
pub open spec fn with_marker(d: DiagramView, i: int, m: Marker) -> DiagramView {
    DiagramView {
        vertices: d.vertices.update(i, VertexView { marker: m, ..d.vertices[i] }),
        left: d.left,
    }
}

/// Two legs may be joined: both open, distinct, and of conjugate fields.
pub open spec fn can_link(d: DiagramView, i: usize, ki: usize, j: usize, kj: usize) -> bool {
    let (i, ki, j, kj) = (i as int, ki as int, j as int, kj as int);
    &&& 0 <= i < d.vertices.len()
    &&& 0 <= j < d.vertices.len()
    &&& 0 <= ki < d.vertices[i].adj.len()
    &&& 0 <= kj < d.vertices[j].adj.len()
    &&& (i, ki) != (j, kj)
    &&& d.vertices[i].adj[ki] is None
    &&& d.vertices[j].adj[kj] is None
    &&& d.vertices[j].legs[kj] == d.vertices[i].legs[ki].anti()
}

pub(crate) proof fn lemma_open_count_update(adj: Seq<Slot>, k: int, t: Slot)
    requires
        0 <= k < adj.len(),
    ensures
        open_count(adj.update(k, t)) + (if adj[k] is None { 1int } else { 0int })
            == open_count(adj) + (if t is None { 1int } else { 0int }),
    decreases adj.len(),
{
    if k < adj.len() - 1 {
        lemma_open_count_update(adj.drop_last(), k, t);
        assert(adj.update(k, t).drop_last() =~= adj.drop_last().update(k, t));
    } else {
        assert(adj.update(k, t).drop_last() =~= adj.drop_last());
    }
}

pub(crate) proof fn lemma_open_total_update(vs: Seq<VertexView>, i: int, v: VertexView)
    requires
        0 <= i < vs.len(),
    ensures
        open_total(vs.update(i, v)) + open_count(vs[i].adj) == open_total(vs) + open_count(v.adj),
    decreases vs.len(),
{
    if i < vs.len() - 1 {
        lemma_open_total_update(vs.drop_last(), i, v);
        assert(vs.update(i, v).drop_last() =~= vs.drop_last().update(i, v));
    } else {
        assert(vs.update(i, v).drop_last() =~= vs.drop_last());
    }
}

pub(crate) proof fn lemma_open_count_bound(adj: Seq<Slot>)
    ensures
        open_count(adj) <= adj.len(),
    decreases adj.len(),
{
    if adj.len() > 0 {
        lemma_open_count_bound(adj.drop_last());
    }
}

/// Joining two legs that may be joined keeps the diagram well-formed and
/// extends it.
pub(crate) proof fn lemma_link(d: DiagramView, i: usize, ki: usize, j: usize, kj: usize)
    requires
        wf(d),
        can_link(d, i, ki, j, kj),
    ensures
        wf(link(d, i, ki, j, kj)),
        extends(link(d, i, ki, j, kj), d),
        d.left >= 2,
{
    let d1 = set_slot(d, i as int, ki as int, Some((j, kj)));
    let d2 = set_slot(d1, j as int, kj as int, Some((i, ki)));
    let r = link(d, i, ki, j, kj);
    lemma_open_count_update(d.vertices[i as int].adj, ki as int, Some((j, kj)));
    lemma_open_total_update(d.vertices, i as int, d1.vertices[i as int]);
    lemma_open_count_update(d1.vertices[j as int].adj, kj as int, Some((i, ki)));
    lemma_open_total_update(d1.vertices, j as int, d2.vertices[j as int]);
    let fi = d.vertices[i as int].legs[ki as int];
    crate::field::lemma_anti_involution(fi.kind);
    assert(fi.anti().anti() == fi);
    assert(r.vertices[i as int].adj[ki as int] == Some((j, kj)));
    assert(r.vertices[j as int].adj[kj as int] == Some((i, ki)));
    assert forall|a: int, b: int|
        0 <= a < r.vertices.len() && 0 <= b < r.vertices[a].adj.len() implies #[trigger] slot_ok(r, a, b) by {
        assert(r.vertices[a].legs == d.vertices[a].legs);
        if (a, b) != (i as int, ki as int) && (a, b) != (j as int, kj as int) {
            assert(slot_ok(d, a, b));
            assert(r.vertices[a].adj[b] == d.vertices[a].adj[b]);
            if let Some(t) = d.vertices[a].adj[b] {
                assert(r.vertices[t.0 as int].legs == d.vertices[t.0 as int].legs);
                assert(r.vertices[t.0 as int].adj[t.1 as int] == d.vertices[t.0 as int].adj[t.1 as int]);
            }
        } else if (a, b) == (j as int, kj as int) {
            assert(r.vertices[i as int].legs == d.vertices[i as int].legs);
        } else {
            assert(r.vertices[j as int].legs == d.vertices[j as int].legs);
        }
    }
    assert forall|a: int| 0 <= a < r.vertices.len() implies vertex_ok(#[trigger] r.vertices[a]) by {
        assert(vertex_ok(d.vertices[a]));
    }
}

/// Changing a marker keeps the diagram well-formed.
pub(crate) proof fn lemma_with_marker(d: DiagramView, i: int, m: Marker)
    requires
        wf(d),
        0 <= i < d.vertices.len(),
    ensures
        wf(with_marker(d, i, m)),
        extends(with_marker(d, i, m), d),
{
    let r = with_marker(d, i, m);
    lemma_open_total_update(d.vertices, i, r.vertices[i]);
    assert forall|a: int, b: int|
        0 <= a < r.vertices.len() && 0 <= b < r.vertices[a].adj.len() implies #[trigger] slot_ok(r, a, b) by {
        assert(slot_ok(d, a, b));
    }
    assert forall|a: int| 0 <= a < r.vertices.len() implies vertex_ok(#[trigger] r.vertices[a]) by {
        assert(vertex_ok(d.vertices[a]));
    }
}

/// A set of vertices that no joined leg leaves.
pub open spec fn closed_under_edges(d: DiagramView, s: Set<int>) -> bool {
    forall|u: int, k: int|
        s.contains(u) && 0 <= u < d.vertices.len() && 0 <= k < d.vertices[u].adj.len()
            && #[trigger] d.vertices[u].adj[k] is Some ==> s.contains(d.vertices[u].adj[k]->Some_0.0 as int)
}

/// Vertex `b` can be reached from vertex `a` over joined legs: it lies in
/// every set that holds `a` and that no joined leg leaves.
pub open spec fn reaches(d: DiagramView, a: int, b: int) -> bool {
    forall|s: Set<int>| #[trigger] closed_under_edges(d, s) && s.contains(a) ==> s.contains(b)
}

/// A vertex with an open leg.
pub open spec fn has_open(v: VertexView) -> bool {
    exists|k: int| 0 <= k < v.adj.len() && #[trigger] v.adj[k] is None
}

/// Every vertex can be reached from the first.
pub open spec fn connected(d: DiagramView) -> bool {
    forall|v: int| 0 <= v < d.vertices.len() ==> #[trigger] reaches(d, 0, v)
}

/// The part of the diagram reached from `i` is either the whole diagram or
/// holds an open leg, through which it may still be joined to the rest.
pub open spec fn may_grow(d: DiagramView, i: int) -> bool {
    (forall|v: int| 0 <= v < d.vertices.len() ==> #[trigger] reaches(d, i, v))
        || (exists|v: int| 0 <= v < d.vertices.len() && #[trigger] reaches(d, i, v) && has_open(d.vertices[v]))
}

/// No part of the diagram is cut off from the rest for good.
pub open spec fn can_connect(d: DiagramView) -> bool {
    forall|i: int| 0 <= i < d.vertices.len() ==> #[trigger] may_grow(d, i)
}

/// What the connectivity check asks: full connectivity once no leg is open,
/// else that no part is cut off for good.
pub open spec fn connectivity_ok(d: DiagramView) -> bool {
    if d.left == 0 {
        connected(d)
    } else {
        can_connect(d)
    }
}

pub open spec fn count_true(s: Seq<bool>) -> nat
    decreases s.len(),
{
    if s.len() == 0 {
        0
    } else {
        count_true(s.drop_last()) + if s.last() { 1nat } else { 0nat }
    }
}

pub(crate) proof fn lemma_count_true(s: Seq<bool>, i: int)
    requires
        0 <= i < s.len(),
        !s[i],
    ensures
        count_true(s.update(i, true)) == count_true(s) + 1,
        count_true(s) <= s.len(),
    decreases s.len(),
{
    if i < s.len() - 1 {
        lemma_count_true(s.drop_last(), i);
        assert(s.update(i, true).drop_last() =~= s.drop_last().update(i, true));
    } else {
        assert(s.update(i, true).drop_last() =~= s.drop_last());
        lemma_count_true_bound(s.drop_last());
    }
}

pub(crate) proof fn lemma_count_true_bound(s: Seq<bool>)
    ensures
        count_true(s) <= s.len(),
    decreases s.len(),
{
    if s.len() > 0 {
        lemma_count_true_bound(s.drop_last());
    }
}

/// Vertex `v` has been scanned: every neighbour is marked, and an open leg
/// on it has been seen.
pub open spec fn scanned(d: DiagramView, vis: Seq<bool>, seen_open: bool, v: int) -> bool {
    &&& forall|k: int|
        0 <= k < d.vertices[v].adj.len() && #[trigger] d.vertices[v].adj[k] is Some
        ==> vis[d.vertices[v].adj[k]->Some_0.0 as int]
    &&& has_open(d.vertices[v]) ==> seen_open
}

/// The number of vertices on the frontier.
pub open spec fn frontier_count(vs: Seq<VertexView>) -> nat
    decreases vs.len(),
{
    if vs.len() == 0 {
        0
    } else {
        frontier_count(vs.drop_last()) + if vs.last().marker == Marker::Frontier { 1nat } else { 0nat }
    }
}

/// `r` is a closing of `d`: well-formed, with no open leg, connected, and
/// keeping every join of `d`.
pub open spec fn closes(r: DiagramView, d: DiagramView) -> bool {
    &&& wf(r)
    &&& r.left == 0
    &&& connected(r)
    &&& extends(r, d)
}

pub(crate) proof fn lemma_frontier_consume(vs: Seq<VertexView>, i: int, v: VertexView)
    requires
        0 <= i < vs.len(),
        vs[i].marker == Marker::Frontier,
        v.marker != Marker::Frontier,
    ensures
        frontier_count(vs.update(i, v)) < frontier_count(vs),
    decreases vs.len(),
{
    if i < vs.len() - 1 {
        lemma_frontier_consume(vs.drop_last(), i, v);
        assert(vs.update(i, v).drop_last() =~= vs.drop_last().update(i, v));
    } else {
        assert(vs.update(i, v).drop_last() =~= vs.drop_last());
    }
}

pub(crate) proof fn lemma_extends_trans(a: DiagramView, b: DiagramView, c: DiagramView)
    requires
        wf(b),
        wf(c),
        extends(a, b),
        extends(b, c),
    ensures
        extends(a, c),
{
    assert forall|i: int, k: int|
        0 <= i < c.vertices.len() && 0 <= k < c.vertices[i].adj.len() && c.vertices[i].adj[k] is Some
        implies #[trigger] a.vertices[i].adj[k] == c.vertices[i].adj[k] by {
        assert(vertex_ok(b.vertices[i]));
        assert(vertex_ok(c.vertices[i]));
        assert(b.vertices[i].legs == c.vertices[i].legs);
    }
    assert forall|i: int| 0 <= i < c.vertices.len() implies (#[trigger] a.vertices[i]).legs == c.vertices[i].legs by {
        assert(b.vertices[i].legs == c.vertices[i].legs);
    }
}

pub(crate) proof fn lemma_open_count_all_joined(adj: Seq<Slot>)
    requires
        forall|k: int| 0 <= k < adj.len() ==> #[trigger] adj[k] is Some,
    ensures
        open_count(adj) == 0,
    decreases adj.len(),
{
    if adj.len() > 0 {
        lemma_open_count_all_joined(adj.drop_last());
    }
}

pub(crate) proof fn lemma_open_total_none(vs: Seq<VertexView>)
    requires
        forall|i: int| 0 <= i < vs.len() ==> open_count(#[trigger] vs[i].adj) == 0,
    ensures
        open_total(vs) == 0,
    decreases vs.len(),
{
    if vs.len() > 0 {
        lemma_open_total_none(vs.drop_last());
    }
}

pub(crate) proof fn lemma_count_prefix_false(s: Seq<bool>, m: nat)
    requires
        m <= s.len(),
        forall|k: int| 0 <= k < m ==> !(#[trigger] s[k]),
    ensures
        count_true(s.take(m as int)) == 0,
    decreases m,
{
    if m > 0 {
        lemma_count_prefix_false(s, (m - 1) as nat);
        assert(s.take(m as int).drop_last() =~= s.take(m - 1));
    }
}

pub(crate) proof fn lemma_open_count_zero(adj: Seq<Slot>, k: int)
    requires
        0 <= k < adj.len(),
        adj[k] is None,
    ensures
        open_count(adj) > 0,
    decreases adj.len(),
{
    if k < adj.len() - 1 {
        lemma_open_count_zero(adj.drop_last(), k);
    }
}

pub(crate) proof fn lemma_open_total_zero(vs: Seq<VertexView>, i: int)
    requires
        0 <= i < vs.len(),
    ensures
        open_count(vs[i].adj) <= open_total(vs),
    decreases vs.len(),
{
    if i < vs.len() - 1 {
        lemma_open_total_zero(vs.drop_last(), i);
    }
}

/// In a well-formed diagram with no open leg recorded, every slot is joined.
pub(crate) proof fn lemma_closed_slots(d: DiagramView, i: int, k: int)
    requires
        wf(d),
        d.left == 0,
        0 <= i < d.vertices.len(),
        0 <= k < d.vertices[i].adj.len(),
    ensures
        d.vertices[i].adj[k] is Some,
{
    if d.vertices[i].adj[k] is None {
        lemma_open_count_zero(d.vertices[i].adj, k);
        lemma_open_total_zero(d.vertices, i);
    }
}

/// `a` and `b` join the same legs to the same legs.
pub open spec fn same_joins(a: DiagramView, b: DiagramView) -> bool {
    &&& a.vertices.len() == b.vertices.len()
    &&& forall|i: int| 0 <= i < a.vertices.len() ==> (#[trigger] a.vertices[i]).adj == b.vertices[i].adj
}

/// Which legs of vertex `v`, of field `f`, are joined to a leg of vertex `w`.
pub open spec fn end_flags(c: DiagramView, v: int, f: FieldView, w: int) -> Seq<bool> {
    Seq::new(
        c.vertices[v].adj.len(),
        |k: int| c.vertices[v].legs[k] == f && c.vertices[v].adj[k] is Some && c.vertices[v].adj[k]->Some_0.0 as int == w,
    )
}

/// `a` and `b` have the same shape: for every vertex `v`, field `f` and
/// vertex `w`, as many legs of `v` of field `f` are joined to `w` in both.
/// Two diagrams have the same shape exactly when one is the other with
/// legs of one field exchanged within vertices.
pub open spec fn same_shape(a: DiagramView, b: DiagramView) -> bool {
    &&& a.vertices.len() == b.vertices.len()
    &&& forall|v: int, f: FieldView, w: int|
        0 <= v < a.vertices.len() ==> #[trigger] count_true(end_flags(a, v, f, w)) == count_true(end_flags(b, v, f, w))
}

/// `c` with legs `x` and `y` of vertex `v` exchanging their partners.
pub open spec fn swap_legs(c: DiagramView, v: usize, x: usize, y: usize) -> DiagramView {
    let p = c.vertices[v as int].adj[x as int]->Some_0;
    let q = c.vertices[v as int].adj[y as int]->Some_0;
    if p == (v, y) {
        c
    } else {
        let c1 = set_slot(c, p.0 as int, p.1 as int, Some((v, y)));
        let c2 = set_slot(c1, q.0 as int, q.1 as int, Some((v, x)));
        let c3 = set_slot(c2, v as int, x as int, Some(q));
        set_slot(c3, v as int, y as int, Some(p))
    }
}

pub(crate) proof fn lemma_count_update(s: Seq<bool>, i: int, b: bool)
    requires
        0 <= i < s.len(),
    ensures
        count_true(s.update(i, b)) + (if s[i] { 1int } else { 0int }) == count_true(s) + (if b { 1int } else { 0int }),
    decreases s.len(),
{
    if i < s.len() - 1 {
        lemma_count_update(s.drop_last(), i, b);
        assert(s.update(i, b).drop_last() =~= s.drop_last().update(i, b));
    } else {
        assert(s.update(i, b).drop_last() =~= s.drop_last());
    }
}

/// Exchanging the partners of two legs of one field on a vertex of a closed
/// diagram gives a closed diagram of the same shape, as connected as before.
pub(crate) proof fn lemma_swap_legs(c: DiagramView, v: usize, x: usize, y: usize)
    requires
        wf(c),
        c.left == 0,
        c.vertices.len() <= usize::MAX,
        v < c.vertices.len(),
        x < c.vertices[v as int].adj.len(),
        y < c.vertices[v as int].adj.len(),
        x != y,
        c.vertices[v as int].legs[x as int] == c.vertices[v as int].legs[y as int],
        c.vertices[v as int].adj[x as int] != Some((v, y)),
    ensures
        wf(swap_legs(c, v, x, y)),
        swap_legs(c, v, x, y).left == 0,
        same_shape(swap_legs(c, v, x, y), c),
        connected(c) ==> connected(swap_legs(c, v, x, y)),
        forall|a: int| 0 <= a < c.vertices.len() ==> (#[trigger] swap_legs(c, v, x, y).vertices[a]).legs == c.vertices[a].legs
            && swap_legs(c, v, x, y).vertices[a].direction == c.vertices[a].direction
            && swap_legs(c, v, x, y).vertices[a].adj.len() == c.vertices[a].adj.len(),
        swap_legs(c, v, x, y).vertices.len() == c.vertices.len(),
        swap_legs(c, v, x, y).vertices[v as int].adj[y as int] == c.vertices[v as int].adj[x as int],
        forall|a: int, b: int|
            0 <= a < c.vertices.len() && 0 <= b < c.vertices[a].adj.len() && (a, b) != (v as int, x as int) && (a, b) != (
                v as int,
                y as int,
            ) && c.vertices[a].adj[b] != Some((v, x)) && c.vertices[a].adj[b] != Some((v, y))
            ==> #[trigger] swap_legs(c, v, x, y).vertices[a].adj[b] == c.vertices[a].adj[b],
        forall|a: int, b: int|
            0 <= a < c.vertices.len() && 0 <= b < c.vertices[a].adj.len() && c.vertices[a].adj[b] == Some((v, x)) && (a, b) != (
                v as int,
                y as int,
            ) ==> #[trigger] swap_legs(c, v, x, y).vertices[a].adj[b] == Some((v, y)),
{
    let n = c.vertices.len();
    let (vi, xi, yi) = (v as int, x as int, y as int);
    lemma_closed_slots(c, vi, xi);
    lemma_closed_slots(c, vi, yi);
    assert(slot_ok(c, vi, xi));
    assert(slot_ok(c, vi, yi));
    let p = c.vertices[vi].adj[xi]->Some_0;
    let q = c.vertices[vi].adj[yi]->Some_0;
    let s = swap_legs(c, v, x, y);
    let (pa, pb, qa, qb) = (p.0 as int, p.1 as int, q.0 as int, q.1 as int);
    assert(q != (v, x));
    assert(p != q);
    crate::field::lemma_anti_involution(c.vertices[vi].legs[xi].kind);
    let fx = c.vertices[vi].legs[xi];
    assert(fx.anti().anti() == fx);
    // The slots after the exchange.
    assert(s.vertices[pa].adj[pb] == Some((v, y)));
    assert(s.vertices[qa].adj[qb] == Some((v, x)));
    assert(s.vertices[vi].adj[xi] == Some(q));
    assert(s.vertices[vi].adj[yi] == Some(p));
    assert forall|a: int| 0 <= a < n implies (#[trigger] s.vertices[a]).legs == c.vertices[a].legs
        && s.vertices[a].direction == c.vertices[a].direction && s.vertices[a].adj.len() == c.vertices[a].adj.len() by {
    }
    assert forall|a: int, b: int|
        0 <= a < n && 0 <= b < c.vertices[a].adj.len() && (a, b) != (vi, xi) && (a, b) != (vi, yi) && (a, b) != (pa, pb)
            && (a, b) != (qa, qb) implies #[trigger] s.vertices[a].adj[b] == c.vertices[a].adj[b] by {
    }
    assert forall|a: int, b: int| 0 <= a < n && 0 <= b < s.vertices[a].adj.len() implies #[trigger] slot_ok(s, a, b) by {
        assert(slot_ok(c, a, b));
        lemma_closed_slots(c, a, b);
        if (a, b) == (pa, pb) {
        } else if (a, b) == (qa, qb) {
        } else if (a, b) == (vi, xi) {
        } else if (a, b) == (vi, yi) {
        } else {
            let t = c.vertices[a].adj[b]->Some_0;
            assert(t != (v, x) && t != (v, y));
            if t == p {
                assert(c.vertices[pa].adj[pb] == Some((a as usize, b as usize)));
            }
            if t == q {
                assert(c.vertices[qa].adj[qb] == Some((a as usize, b as usize)));
            }
            assert(s.vertices[t.0 as int].adj[t.1 as int] == c.vertices[t.0 as int].adj[t.1 as int]);
        }
    }
    assert forall|a: int| 0 <= a < n implies vertex_ok(#[trigger] s.vertices[a]) by {
        assert(vertex_ok(c.vertices[a]));
    }
    assert forall|a: int| 0 <= a < n implies open_count(#[trigger] s.vertices[a].adj) == 0 by {
        assert forall|b: int| 0 <= b < s.vertices[a].adj.len() implies #[trigger] s.vertices[a].adj[b] is Some by {
            lemma_closed_slots(c, a, b);
        }
        lemma_open_count_all_joined(s.vertices[a].adj);
    }
    lemma_open_total_none(s.vertices);
    // The shape is kept.
    assert forall|a: int, f: FieldView, w: int| 0 <= a < n implies #[trigger] count_true(end_flags(s, a, f, w))
        == count_true(end_flags(c, a, f, w)) by {
        let fs = end_flags(s, a, f, w);
        let fc = end_flags(c, a, f, w);
        if a == vi {
            let g = fc.update(xi, fc[yi]).update(yi, fc[xi]);
            assert forall|b: int| 0 <= b < fs.len() implies fs[b] == g[b] by {
                lemma_closed_slots(c, a, b);
            }
            assert(fs =~= g);
            lemma_count_update(fc, xi, fc[yi]);
            lemma_count_update(fc.update(xi, fc[yi]), yi, fc[xi]);
        } else {
            assert forall|b: int| 0 <= b < fs.len() implies fs[b] == fc[b] by {
                lemma_closed_slots(c, a, b);
            }
            assert(fs =~= fc);
        }
    }
    // Every set that no joined leg leaves in the exchanged diagram is one in
    // the original too.
    assert forall|st: Set<int>| #[trigger] closed_under_edges(s, st) implies closed_under_edges(c, st) by {
        assert forall|u: int, k: int|
            st.contains(u) && 0 <= u < c.vertices.len() && 0 <= k < c.vertices[u].adj.len()
                && #[trigger] c.vertices[u].adj[k] is Some implies st.contains(c.vertices[u].adj[k]->Some_0.0 as int) by {
            lemma_closed_slots(c, u, k);
            if (u, k) == (vi, xi) {
                assert(s.vertices[vi].adj[yi] is Some);
            } else if (u, k) == (vi, yi) {
                assert(s.vertices[vi].adj[xi] is Some);
            } else if (u, k) == (pa, pb) {
                assert(s.vertices[pa].adj[pb] is Some);
            } else if (u, k) == (qa, qb) {
                assert(s.vertices[qa].adj[qb] is Some);
            } else {
                assert(s.vertices[u].adj[k] is Some);
            }
        }
    }
    assert forall|a: int, b: int|
        0 <= a < n && 0 <= b < c.vertices[a].adj.len() && c.vertices[a].adj[b] == Some((v, x)) && (a, b) != (vi, yi)
        implies #[trigger] s.vertices[a].adj[b] == Some((v, y)) by {
        assert(slot_ok(c, a, b));
    }
    if connected(c) {
        assert forall|w: int| 0 <= w < n implies #[trigger] reaches(s, 0, w) by {
            assert forall|st: Set<int>| #[trigger] closed_under_edges(s, st) && st.contains(0) implies st.contains(w) by {
                assert(closed_under_edges(c, st));
                assert(reaches(c, 0, w));
            }
        }
    }
}

/// Diagrams that join the same legs, over the same legs, have the same shape.
pub(crate) proof fn lemma_joins_shape(a: DiagramView, b: DiagramView)
    requires
        same_joins(a, b),
        forall|i: int| 0 <= i < a.vertices.len() ==> (#[trigger] a.vertices[i]).legs == b.vertices[i].legs,
    ensures
        same_shape(a, b),
{
    assert forall|v: int, f: FieldView, w: int| 0 <= v < a.vertices.len() implies #[trigger] count_true(end_flags(a, v, f, w))
        == count_true(end_flags(b, v, f, w)) by {
        assert(a.vertices[v].adj == b.vertices[v].adj);
        assert(end_flags(a, v, f, w) =~= end_flags(b, v, f, w));
    }
}

/// A diagram has its own shape.
pub(crate) proof fn lemma_shape_refl(a: DiagramView)
    ensures
        same_shape(a, a),
{
}

/// Having the same shape is transitive.
pub(crate) proof fn lemma_shape_trans(a: DiagramView, b: DiagramView, c: DiagramView)
    requires
        same_shape(a, b),
        same_shape(b, c),
    ensures
        same_shape(a, c),
{
    assert forall|v: int, f: FieldView, w: int| 0 <= v < a.vertices.len() implies #[trigger] count_true(end_flags(a, v, f, w))
        == count_true(end_flags(c, v, f, w)) by {
        assert(count_true(end_flags(a, v, f, w)) == count_true(end_flags(b, v, f, w)));
        assert(count_true(end_flags(b, v, f, w)) == count_true(end_flags(c, v, f, w)));
    }
}

/// Exchanging the partners of two legs of one field, both open in `d`, in a
/// closing of `d` gives a closing of `d` of the same shape.
pub(crate) proof fn lemma_swap_closes(c: DiagramView, d: DiagramView, v: usize, x: usize, y: usize)
    requires
        wf(d),
        closes(c, d),
        d.vertices.len() <= usize::MAX,
        v < d.vertices.len(),
        x < d.vertices[v as int].adj.len(),
        y < d.vertices[v as int].adj.len(),
        x != y,
        d.vertices[v as int].legs[x as int] == d.vertices[v as int].legs[y as int],
        d.vertices[v as int].adj[x as int] is None,
        d.vertices[v as int].adj[y as int] is None,
        c.vertices[v as int].adj[x as int] != Some((v, y)),
    ensures
        closes(swap_legs(c, v, x, y), d),
        same_shape(swap_legs(c, v, x, y), c),
{
    assert(vertex_ok(d.vertices[v as int]));
    assert(vertex_ok(c.vertices[v as int]));
    assert(c.vertices[v as int].legs == d.vertices[v as int].legs);
    lemma_swap_legs(c, v, x, y);
    let s = swap_legs(c, v, x, y);
    assert forall|a: int, b: int|
        0 <= a < d.vertices.len() && 0 <= b < d.vertices[a].adj.len() && d.vertices[a].adj[b] is Some
        implies #[trigger] s.vertices[a].adj[b] == d.vertices[a].adj[b] by {
        assert(slot_ok(d, a, b));
        assert(vertex_ok(d.vertices[a]));
        assert(vertex_ok(c.vertices[a]));
        assert(c.vertices[a].legs == d.vertices[a].legs);
        assert(c.vertices[a].adj[b] == d.vertices[a].adj[b]);
    }
    assert forall|a: int| 0 <= a < d.vertices.len() implies (#[trigger] s.vertices[a]).legs == d.vertices[a].legs
        && s.vertices[a].direction == d.vertices[a].direction by {
        assert(c.vertices[a].legs == d.vertices[a].legs);
    }
}

/// A closing of a diagram stays a closing once a marker changes.
pub(crate) proof fn lemma_closes_marked(c: DiagramView, d: DiagramView, i: int, m: Marker)
    requires
        closes(c, d),
        0 <= i < d.vertices.len(),
    ensures
        closes(c, with_marker(d, i, m)),
{
    let e = with_marker(d, i, m);
    assert forall|a: int| 0 <= a < e.vertices.len() implies (#[trigger] c.vertices[a]).legs == e.vertices[a].legs
        && c.vertices[a].direction == e.vertices[a].direction by {
        assert(c.vertices[a].legs == d.vertices[a].legs);
    }
}

/// In a closing `c` of `d`, the partner of a leg that is open in `d` is open
/// in `d` too, the two may be joined, and `c` closes `d` with them joined.
pub(crate) proof fn lemma_partner(c: DiagramView, d: DiagramView, i: usize, ki: usize)
    requires
        wf(d),
        closes(c, d),
        i < d.vertices.len(),
        ki < d.vertices[i as int].adj.len(),
        d.vertices[i as int].adj[ki as int] is None,
    ensures
        c.vertices[i as int].adj[ki as int] is Some,
        can_link(d, i, ki, c.vertices[i as int].adj[ki as int]->Some_0.0, c.vertices[i as int].adj[ki as int]->Some_0.1),
        closes(c, link(d, i, ki, c.vertices[i as int].adj[ki as int]->Some_0.0, c.vertices[i as int].adj[ki as int]->Some_0.1)),
{
    assert(vertex_ok(d.vertices[i as int]));
    assert(vertex_ok(c.vertices[i as int]));
    assert(c.vertices[i as int].legs == d.vertices[i as int].legs);
    lemma_closed_slots(c, i as int, ki as int);
    let p = c.vertices[i as int].adj[ki as int]->Some_0;
    let (j, kj) = (p.0, p.1);
    assert(slot_ok(c, i as int, ki as int));
    assert(vertex_ok(d.vertices[j as int]));
    assert(vertex_ok(c.vertices[j as int]));
    assert(c.vertices[j as int].legs == d.vertices[j as int].legs);
    if d.vertices[j as int].adj[kj as int] is Some {
        assert(slot_ok(d, j as int, kj as int));
    }
    let l = link(d, i, ki, j, kj);
    assert forall|a: int, b: int|
        0 <= a < l.vertices.len() && 0 <= b < l.vertices[a].adj.len() && l.vertices[a].adj[b] is Some
        implies #[trigger] c.vertices[a].adj[b] == l.vertices[a].adj[b] by {
        if (a, b) != (i as int, ki as int) && (a, b) != (j as int, kj as int) {
            assert(l.vertices[a].adj[b] == d.vertices[a].adj[b]);
        }
    }
    assert forall|a: int| 0 <= a < l.vertices.len() implies (#[trigger] c.vertices[a]).legs == l.vertices[a].legs
        && c.vertices[a].direction == l.vertices[a].direction by {
        assert(c.vertices[a].legs == d.vertices[a].legs);
    }
}

/// Some leg of a well-formed diagram with open legs is open.
pub(crate) proof fn lemma_some_open(d: DiagramView) -> (r: (int, int))
    requires
        d.vertices.len() <= usize::MAX,
        wf(d),
        d.left > 0,
    ensures
        0 <= r.0 < d.vertices.len(),
        0 <= r.1 < d.vertices[r.0].adj.len(),
        d.vertices[r.0].adj[r.1] is None,
{
    if forall|i: int| 0 <= i < d.vertices.len() ==> open_count(#[trigger] d.vertices[i].adj) == 0 {
        lemma_open_total_none(d.vertices);
    }
    let i = choose|i: int| 0 <= i < d.vertices.len() && open_count(#[trigger] d.vertices[i].adj) != 0;
    if forall|k: int| 0 <= k < d.vertices[i].adj.len() ==> #[trigger] d.vertices[i].adj[k] is Some {
        lemma_open_count_all_joined(d.vertices[i].adj);
    }
    let k = choose|k: int| 0 <= k < d.vertices[i].adj.len() && #[trigger] d.vertices[i].adj[k] is None;
    (i, k)
}

/// A diagram that has a closing has an even number of open legs.
pub(crate) proof fn lemma_closable_even(c: DiagramView, d: DiagramView)
    requires
        d.vertices.len() <= usize::MAX,
        wf(d),
        closes(c, d),
    ensures
        d.left % 2 == 0,
    decreases d.left,
{
    if d.left > 0 {
        let (i, k) = lemma_some_open(d);
        assert(vertex_ok(d.vertices[i]));
        assert(i as usize as int == i && k as usize as int == k);
        lemma_partner(c, d, i as usize, k as usize);
        let p = c.vertices[i].adj[k]->Some_0;
        lemma_link(d, i as usize, k as usize, p.0, p.1);
        lemma_closable_even(c, link(d, i as usize, k as usize, p.0, p.1));
    }
}

/// A diagram with no open leg joins the same legs as any closing of it.
pub(crate) proof fn lemma_closed_same(c: DiagramView, d: DiagramView)
    requires
        wf(d),
        d.left == 0,
        closes(c, d),
    ensures
        same_joins(d, c),
{
    assert forall|i: int| 0 <= i < d.vertices.len() implies (#[trigger] d.vertices[i]).adj == c.vertices[i].adj by {
        assert(vertex_ok(d.vertices[i]));
        assert(vertex_ok(c.vertices[i]));
        assert(c.vertices[i].legs == d.vertices[i].legs);
        assert forall|k: int| 0 <= k < d.vertices[i].adj.len() implies d.vertices[i].adj[k] == c.vertices[i].adj[k] by {
            lemma_closed_slots(d, i, k);
        }
        assert(d.vertices[i].adj =~= c.vertices[i].adj);
    }
}

/// A diagram that has a closing passes the connectivity check.
pub(crate) proof fn lemma_closable_connects(c: DiagramView, d: DiagramView)
    requires
        d.vertices.len() <= usize::MAX,
        wf(d),
        closes(c, d),
    ensures
        connectivity_ok(d),
{
    let n = d.vertices.len();
    if d.left == 0 {
        lemma_closed_same(c, d);
        assert forall|v: int| 0 <= v < n implies #[trigger] reaches(d, 0, v) by {
            assert forall|s: Set<int>| #[trigger] closed_under_edges(d, s) && s.contains(0) implies s.contains(v) by {
                assert(closed_under_edges(c, s)) by {
                    assert forall|u: int, k: int|
                        s.contains(u) && 0 <= u < c.vertices.len() && 0 <= k < c.vertices[u].adj.len()
                            && #[trigger] c.vertices[u].adj[k] is Some implies s.contains(c.vertices[u].adj[k]->Some_0.0 as int) by {
                        assert(c.vertices[u].adj == d.vertices[u].adj);
                    }
                }
                assert(reaches(c, 0, v));
            }
        }
    } else {
        assert forall|i: int| 0 <= i < n implies #[trigger] may_grow(d, i) by {
            if !may_grow(d, i) {
                let sv = Set::new(|x: int| 0 <= x < n && reaches(d, i, x));
                assert(reaches(d, i, i));
                let v = choose|v: int| 0 <= v < n && !reaches(d, i, v);
                assert(closed_under_edges(c, sv)) by {
                    assert forall|u: int, k: int|
                        sv.contains(u) && 0 <= u < c.vertices.len() && 0 <= k < c.vertices[u].adj.len()
                            && #[trigger] c.vertices[u].adj[k] is Some implies sv.contains(c.vertices[u].adj[k]->Some_0.0 as int) by {
                        assert(vertex_ok(d.vertices[u]));
                        assert(vertex_ok(c.vertices[u]));
                        assert(c.vertices[u].legs == d.vertices[u].legs);
                        assert(!has_open(d.vertices[u]));
                        assert(d.vertices[u].adj[k] is Some);
                        assert(slot_ok(d, u, k));
                        let w = d.vertices[u].adj[k]->Some_0.0 as int;
                        assert forall|t: Set<int>| #[trigger] closed_under_edges(d, t) && t.contains(i) implies t.contains(w) by {
                            assert(t.contains(u));
                        }
                    }
                }
                assert(reaches(c, 0, v));
                assert(reaches(c, 0, i));
                if sv.contains(0) {
                    assert(sv.contains(v));
                } else {
                    let tv = Set::new(|x: int| !sv.contains(x));
                    assert(closed_under_edges(c, tv)) by {
                        assert forall|u: int, k: int|
                            tv.contains(u) && 0 <= u < c.vertices.len() && 0 <= k < c.vertices[u].adj.len()
                                && #[trigger] c.vertices[u].adj[k] is Some implies tv.contains(c.vertices[u].adj[k]->Some_0.0 as int) by {
                            assert(slot_ok(c, u, k));
                            let w = c.vertices[u].adj[k]->Some_0;
                            if sv.contains(w.0 as int) {
                                assert(c.vertices[w.0 as int].adj[w.1 as int] is Some);
                                assert(sv.contains(u));
                            }
                        }
                    }
                    assert(tv.contains(i));
                }
            }
        }
    }
}

} // verus!
