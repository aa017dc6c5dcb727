//! Vertices, diagrams, and the search for every way to close a diagram's
//! open legs.
use vstd::prelude::*;
use crate::field::{Field, FieldView};
use crate::lagrangian::{Interaction, views_of};
pub use crate::graph::Inout;
use crate::graph::{
    Marker, Slot, VertexView, DiagramView, open_count, open_total, vertex_ok, vertex_fresh, slot_ok, wf,
    extends, set_slot, link, with_marker, can_link, lemma_open_count_bound, lemma_link, lemma_with_marker,
    closed_under_edges, reaches, has_open, connected, may_grow, can_connect, connectivity_ok, count_true,
    lemma_count_true, lemma_count_true_bound, lemma_count_prefix_false, scanned, frontier_count, closes,
    lemma_frontier_consume, lemma_extends_trans, lemma_open_count_all_joined, lemma_open_total_none,
    same_joins, same_shape, swap_legs, end_flags, lemma_shape_refl, lemma_joins_shape, lemma_shape_trans, lemma_swap_closes, lemma_swap_legs,
    lemma_closes_marked, lemma_partner, lemma_closable_even, lemma_closable_connects, lemma_closed_same,
};
use crate::render::{Edge, before, lists_edge, is_edge_list, edges_text, line_text};

verus! {

#[derive(Clone, Debug)]
enum VertexKind {
    External { field: Field, inout: Inout },
    Internal { interaction: Interaction },
}

/// A vertex: an external leg, or an instance of an interaction term with one
/// leg per factor.
#[derive(Clone, Debug)]
pub struct Vertex {
    kind: VertexKind,
    adj: Vec<Slot>,
    marker: Marker,
}

impl View for Vertex {
    type V = VertexView;

    closed spec fn view(&self) -> VertexView {
        VertexView {
            legs: match self.kind {
                VertexKind::External { field, .. } => seq![field@],
                VertexKind::Internal { interaction } => interaction@,
            },
            adj: self.adj@,
            marker: self.marker,
            direction: match self.kind {
                VertexKind::External { inout, .. } => Some(inout),
                VertexKind::Internal { .. } => None,
            },
        }
    }
}

/// `n` open slots.
fn open_slots(n: usize) -> (r: Vec<Slot>)
    ensures
        r@.len() == n,
        forall|k: int| 0 <= k < n ==> #[trigger] r@[k] is None,
{
    let mut r: Vec<Slot> = Vec::new();
    let mut i: usize = 0;
    while i < n
        invariant
            i <= n,
            r@.len() == i,
            forall|k: int| 0 <= k < i ==> #[trigger] r@[k] is None,
        decreases n - i,
    {
        r.push(None);
        i = i + 1;
    }
    r
}

impl Vertex {
    /// An external leg of unknown direction, on the frontier of the search.
    pub fn external(field: Field) -> (r: Vertex)
        ensures
            r@.legs == seq![field@],
            vertex_fresh(r@),
            r@.marker == Marker::Frontier,
            r@.direction == Some(Inout::Unknown),
    {
        Vertex::inout(field, Inout::Unknown)
    }

    /// An external leg of the given direction, on the frontier of the search.
    pub fn inout(field: Field, inout: Inout) -> (r: Vertex)
        ensures
            r@.legs == seq![field@],
            vertex_fresh(r@),
            r@.marker == Marker::Frontier,
            r@.direction == Some(inout),
    {
        Vertex { kind: VertexKind::External { field, inout }, adj: open_slots(1), marker: Marker::Frontier }
    }

    /// An instance of a term, untouched by the search.
    pub fn internal(interaction: Interaction) -> (r: Vertex)
        ensures
            r@.legs == interaction@,
            vertex_fresh(r@),
            r@.marker == Marker::Untouched,
            r@.direction is None,
    {
        let len = interaction.factors().len();
        Vertex { kind: VertexKind::Internal { interaction }, adj: open_slots(len), marker: Marker::Untouched }
    }

    /// The direction of an external leg; `None` for an internal vertex.
    pub fn direction(&self) -> (r: Option<Inout>)
        ensures
            r == self@.direction,
    {
        match &self.kind {
            VertexKind::External { inout, .. } => Some(*inout),
            VertexKind::Internal { .. } => None,
        }
    }

    /// The field of leg `k`.
    fn leg(&self, k: usize) -> (r: Field)
        requires
            k < self@.legs.len(),
        ensures
            r@ == self@.legs[k as int],
    {
        match &self.kind {
            VertexKind::External { field, .. } => field.copy(),
            VertexKind::Internal { interaction } => {
                let fs = interaction.factors();
                assert(views_of(fs@)[k as int] == fs@[k as int]@);
                fs[k].copy()
            },
        }
    }

    /// The number of open legs.
    fn left(&self) -> (r: usize)
        ensures
            r == open_count(self@.adj),
    {
        let mut r: usize = 0;
        let mut i: usize = 0;
        while i < self.adj.len()
            invariant
                i <= self.adj@.len(),
                r == open_count(self.adj@.take(i as int)),
                r <= i,
            decreases self.adj@.len() - i,
        {
            assert(self.adj@.take(i as int + 1).drop_last() =~= self.adj@.take(i as int));
            if self.adj[i].is_none() {
                r = r + 1;
            }
            i = i + 1;
        }
        assert(self.adj@.take(i as int) =~= self.adj@);
        r
    }

    /// The open legs of field `f`, in increasing order.
    fn ports(&self, f: &Field) -> (r: Vec<usize>)
        requires
            vertex_ok(self@),
        ensures
            forall|t: int| 0 <= t < r@.len() ==> {
                &&& r@[t] < self@.adj.len()
                &&& self@.adj[r@[t] as int] is None
                &&& self@.legs[r@[t] as int] == f@
            },
            forall|a: int, b: int| 0 <= a < b < r@.len() ==> r@[a] < r@[b],
            forall|k: int|
                0 <= k < self@.adj.len() && self@.adj[k] is None && self@.legs[k] == f@
                ==> r@.contains(k as usize),
    {
        let mut r: Vec<usize> = Vec::new();
        let mut i: usize = 0;
        while i < self.adj.len()
            invariant
                i <= self.adj@.len(),
                vertex_ok(self@),
                forall|t: int| 0 <= t < r@.len() ==> {
                    &&& r@[t] < i
                    &&& self@.adj[r@[t] as int] is None
                    &&& self@.legs[r@[t] as int] == f@
                },
                forall|a: int, b: int| 0 <= a < b < r@.len() ==> r@[a] < r@[b],
                forall|k: int|
                    0 <= k < i && self@.adj[k] is None && self@.legs[k] == f@
                    ==> r@.contains(k as usize),
            decreases self.adj@.len() - i,
        {
            let ghost before = r@;
            if self.adj[i].is_none() && self.leg(i).same(f) {
                r.push(i);
                assert(r@[r@.len() - 1] == i);
                assert forall|k: int|
                    0 <= k < i && self@.adj[k] is None && self@.legs[k] == f@ implies r@.contains(k as usize) by {
                    let w = choose|w: int| 0 <= w < before.len() && before[w] == k as usize;
                    assert(r@[w] == k as usize);
                }
            }
            i = i + 1;
        }
        r
    }

    /// A copy of the vertex.
    fn copy(&self) -> (r: Vertex)
        ensures
            r@ == self@,
    {
        let kind = match &self.kind {
            VertexKind::External { field, inout } => VertexKind::External { field: field.copy(), inout: *inout },
            VertexKind::Internal { interaction } => VertexKind::Internal { interaction: interaction.copy() },
        };
        let mut adj: Vec<Slot> = Vec::new();
        let mut i: usize = 0;
        while i < self.adj.len()
            invariant
                i <= self.adj@.len(),
                adj@ =~= self.adj@.take(i as int),
            decreases self.adj@.len() - i,
        {
            adj.push(self.adj[i]);
            i = i + 1;
        }
        assert(self.adj@.take(i as int) =~= self.adj@);
        let r = Vertex { kind, adj, marker: self.marker };
        assert(r@.legs =~= self@.legs);
        r
    }
}

/// Every diagram of `s` is a closing of `d`.
pub open spec fn all_close(s: Seq<Diagram>, d: DiagramView) -> bool {
    forall|t: int| 0 <= t < s.len() ==> closes(#[trigger] s[t]@, d)
}

/// The closings found from a diagram that extends `d` are closings of `d`.
proof fn lemma_collect(a: Seq<Diagram>, b: Seq<Diagram>, mid: DiagramView, d: DiagramView)
    requires
        wf(mid),
        wf(d),
        extends(mid, d),
        all_close(a, d),
        all_close(b, mid),
    ensures
        all_close(a + b, d),
{
    assert forall|t: int| 0 <= t < (a + b).len() implies closes(#[trigger] (a + b)[t]@, d) by {
        if t >= a.len() {
            let r = b[t - a.len()]@;
            assert(closes(r, mid));
            lemma_extends_trans(r, mid, d);
        }
    }
}

/// Some diagram of `s` has the shape of `c`: it is `c` up to exchanging,
/// within each vertex, legs of one field.
pub open spec fn finds(s: Seq<Diagram>, c: DiagramView) -> bool {
    exists|t: int| 0 <= t < s.len() && same_shape(#[trigger] s[t]@, c)
}

/// A closing of `d` that joins leg `ki` of vertex `i` to leg `kj` of vertex
/// `j` closes `d` with those legs joined and both vertices on the frontier.
proof fn lemma_closes_joined(c: DiagramView, d: DiagramView, i: usize, ki: usize, j: usize, kj: usize)
    requires
        wf(d),
        closes(c, d),
        i < d.vertices.len(),
        ki < d.vertices[i as int].adj.len(),
        d.vertices[i as int].adj[ki as int] is None,
        c.vertices[i as int].adj[ki as int] == Some((j, kj)),
    ensures
        closes(
            c,
            with_marker(with_marker(link(d, i, ki, j, kj), i as int, Marker::Frontier), j as int, Marker::Frontier),
        ),
{
    lemma_partner(c, d, i, ki);
    let l = link(d, i, ki, j, kj);
    lemma_closes_marked(c, l, i as int, Marker::Frontier);
    lemma_closes_marked(c, with_marker(l, i as int, Marker::Frontier), j as int, Marker::Frontier);
}

/// No two diagrams of `s` join the same legs.
pub open spec fn distinct_joins(s: Seq<Diagram>) -> bool {
    forall|a: int, b: int| 0 <= a < b < s.len() ==> !same_joins(#[trigger] s[a]@, #[trigger] s[b]@)
}

/// No two diagrams of `s` have the same shape.
pub open spec fn distinct_shapes(s: Seq<Diagram>) -> bool {
    forall|a: int, b: int| 0 <= a < b < s.len() ==> !same_shape(#[trigger] s[a]@, #[trigger] s[b]@)
}

proof fn lemma_count_positive(s: Seq<bool>) -> (k: int)
    requires
        count_true(s) > 0,
    ensures
        0 <= k < s.len(),
        s[k],
    decreases s.len(),
{
    if s.last() {
        s.len() - 1
    } else {
        lemma_count_positive(s.drop_last())
    }
}

/// The number of legs of vertex `v` of field `f` joined to vertex `w`.
fn ends_count(d: &Diagram, v: usize, f: &Field, w: usize) -> (r: usize)
    requires
        v < d@.vertices.len(),
        vertex_ok(d@.vertices[v as int]),
    ensures
        r == count_true(end_flags(d@, v as int, f@, w as int)),
{
    let vx = d.vertex(v);
    let ghost fl = end_flags(d@, v as int, f@, w as int);
    let mut r: usize = 0;
    let mut k: usize = 0;
    while k < vx.adj.len()
        invariant
            vx@ == d@.vertices[v as int],
            vx.adj@ == vx@.adj,
            vertex_ok(vx@),
            fl == end_flags(d@, v as int, f@, w as int),
            k <= vx.adj@.len(),
            r == count_true(fl.take(k as int)),
            r <= k,
        decreases vx.adj@.len() - k,
    {
        assert(fl.take(k as int + 1).drop_last() =~= fl.take(k as int));
        let hit = match vx.adj[k] {
            Some((t, _)) => t == w && vx.leg(k).same(f),
            None => false,
        };
        if hit {
            r = r + 1;
        }
        k = k + 1;
    }
    assert(fl.take(k as int) =~= fl);
    r
}

/// Whether every field and far vertex of a joined leg of vertex `v` in `a`
/// is counted alike in `b`.
fn counts_agree(a: &Diagram, b: &Diagram, v: usize) -> (r: bool)
    requires
        v < a@.vertices.len(),
        v < b@.vertices.len(),
        vertex_ok(a@.vertices[v as int]),
        vertex_ok(b@.vertices[v as int]),
    ensures
        r ==> forall|k: int| 0 <= k < a@.vertices[v as int].adj.len() && #[trigger] a@.vertices[v as int].adj[k] is Some
            ==> count_true(end_flags(a@, v as int, a@.vertices[v as int].legs[k], a@.vertices[v as int].adj[k]->Some_0.0 as int))
            == count_true(end_flags(b@, v as int, a@.vertices[v as int].legs[k], a@.vertices[v as int].adj[k]->Some_0.0 as int)),
        !r ==> !same_shape(a@, b@),
{
    let vx = a.vertex(v);
    let mut k: usize = 0;
    while k < vx.adj.len()
        invariant
            vx@ == a@.vertices[v as int],
            vx.adj@ == vx@.adj,
            vertex_ok(vx@),
            v < a@.vertices.len(),
            v < b@.vertices.len(),
            vertex_ok(a@.vertices[v as int]),
            vertex_ok(b@.vertices[v as int]),
            k <= vx.adj@.len(),
            forall|q: int| 0 <= q < k && #[trigger] a@.vertices[v as int].adj[q] is Some
                ==> count_true(end_flags(a@, v as int, a@.vertices[v as int].legs[q], a@.vertices[v as int].adj[q]->Some_0.0 as int))
                == count_true(end_flags(b@, v as int, a@.vertices[v as int].legs[q], a@.vertices[v as int].adj[q]->Some_0.0 as int)),
        decreases vx.adj@.len() - k,
    {
        if let Some((t, _)) = vx.adj[k] {
            let f = vx.leg(k);
            if ends_count(a, v, &f, t) != ends_count(b, v, &f, t) {
                return false;
            }
        }
        k = k + 1;
    }
    true
}

/// Whether `a` and `b` have the same shape.
fn shapes_equal(a: &Diagram, b: &Diagram) -> (r: bool)
    requires
        wf(a@),
        wf(b@),
    ensures
        r == same_shape(a@, b@),
{
    if a.len() != b.len() {
        return false;
    }
    let n = a.len();
    let mut v: usize = 0;
    while v < n
        invariant
            wf(a@),
            wf(b@),
            n == a@.vertices.len(),
            n == b@.vertices.len(),
            v <= n,
            forall|u: int, f: FieldView, w: int| 0 <= u < v ==> #[trigger] count_true(end_flags(a@, u, f, w))
                == count_true(end_flags(b@, u, f, w)),
        decreases n - v,
    {
        assert(vertex_ok(a@.vertices[v as int]));
        assert(vertex_ok(b@.vertices[v as int]));
        if !counts_agree(a, b, v) {
            return false;
        }
        if !counts_agree(b, a, v) {
            return false;
        }
        assert forall|f: FieldView, w: int| #[trigger] count_true(end_flags(a@, v as int, f, w))
            == count_true(end_flags(b@, v as int, f, w)) by {
            let fa = end_flags(a@, v as int, f, w);
            let fb = end_flags(b@, v as int, f, w);
            if count_true(fa) > 0 {
                let k = lemma_count_positive(fa);
                assert(a@.vertices[v as int].adj[k] is Some);
            } else if count_true(fb) > 0 {
                let k = lemma_count_positive(fb);
                assert(b@.vertices[v as int].adj[k] is Some);
            }
        }
        v = v + 1;
    }
    true
}

/// The diagrams of `all`, each kept only when no diagram kept before it has
/// the same shape.
fn keep_shapes(all: &Vec<Diagram>) -> (r: Vec<Diagram>)
    requires
        forall|t: int| 0 <= t < all@.len() ==> wf(#[trigger] all@[t]@),
    ensures
        drawn_from(r@, all@),
        forall|u: int| 0 <= u < all@.len() ==> finds(r@, #[trigger] all@[u]@),
        distinct_shapes(r@),
        r@.len() <= all@.len(),
        all@.len() > 0 ==> r@.len() > 0 && r@[0]@ == all@[0]@,
{
    let mut r: Vec<Diagram> = Vec::new();
    let mut u: usize = 0;
    while u < all.len()
        invariant
            u <= all@.len(),
            forall|t: int| 0 <= t < all@.len() ==> wf(#[trigger] all@[t]@),
            forall|t: int| 0 <= t < r@.len() ==> exists|x: int| 0 <= x < u && (#[trigger] r@[t])@ == all@[x]@,
            forall|x: int| 0 <= x < u ==> finds(r@, #[trigger] all@[x]@),
            distinct_shapes(r@),
            r@.len() <= u,
            u > 0 ==> r@.len() > 0 && r@[0]@ == all@[0]@,
        decreases all@.len() - u,
    {
        let mut seen = false;
        let mut t: usize = 0;
        while t < r.len()
            invariant
                u < all@.len(),
                t <= r@.len(),
                forall|x: int| 0 <= x < all@.len() ==> wf(#[trigger] all@[x]@),
                forall|y: int| 0 <= y < r@.len() ==> exists|x: int| 0 <= x < u && (#[trigger] r@[y])@ == all@[x]@,
                !seen ==> forall|y: int| 0 <= y < t ==> !same_shape(#[trigger] r@[y]@, all@[u as int]@),
                seen ==> finds(r@, all@[u as int]@),
            decreases r@.len() - t,
        {
            let ghost y = choose|x: int| 0 <= x < u && r@[t as int]@ == all@[x]@;
            assert(wf(all@[y]@));
            if !seen && shapes_equal(&r[t], &all[u]) {
                seen = true;
            }
            t = t + 1;
        }
        let ghost before = r@;
        if !seen {
            r.push(all[u].copy());
            assert(r@[r@.len() - 1]@ == all@[u as int]@);
            assert(r@ == before.push(r@[r@.len() - 1]));
            assert forall|y: int| 0 <= y < r@.len() implies exists|x: int| 0 <= x < u + 1 && (#[trigger] r@[y])@ == all@[x]@ by {
                if y < before.len() {
                    assert(r@[y] == before[y]);
                }
            }
            assert forall|x: int| 0 <= x < u + 1 implies finds(r@, #[trigger] all@[x]@) by {
                if x < u {
                    let t2 = choose|t2: int| 0 <= t2 < before.len() && same_shape(#[trigger] before[t2]@, all@[x]@);
                    assert(r@[t2] == before[t2]);
                } else {
                    lemma_shape_refl(all@[x]@);
                    assert(same_shape(r@[r@.len() - 1]@, all@[x]@));
                }
            }
            assert forall|a: int, b: int| 0 <= a < b < r@.len() implies !same_shape(#[trigger] r@[a]@, #[trigger] r@[b]@) by {
                assert(r@[a] == before[a] || a == r@.len() - 1);
                if b == r@.len() - 1 {
                    assert(r@[a] == before[a]);
                } else {
                    assert(r@[a] == before[a] && r@[b] == before[b]);
                }
            }
        }
        u = u + 1;
    }
    r
}

/// Every diagram of `r` is, as a value, one of `all`.
pub open spec fn drawn_from(r: Seq<Diagram>, all: Seq<Diagram>) -> bool {
    forall|t: int| 0 <= t < r.len() ==> exists|u: int| 0 <= u < all.len() && (#[trigger] r[t])@ == all[u]@
}

/// Keeping one diagram of each shape keeps what `draw` promises.
proof fn lemma_kept_result(all: Seq<Diagram>, r: Seq<Diagram>, d: DiagramView)
    requires
        draw_result(all, d),
        drawn_from(r, all),
        forall|u: int| 0 <= u < all.len() ==> finds(r, #[trigger] all[u]@),
    ensures
        draw_result(r, d),
{
    lemma_kept_close(all, r, d);
    lemma_kept_finds(all, r, d);
}

proof fn lemma_kept_close(all: Seq<Diagram>, r: Seq<Diagram>, d: DiagramView)
    requires
        all_close(all, d),
        drawn_from(r, all),
    ensures
        all_close(r, d),
{
    assert forall|t: int| 0 <= t < r.len() implies closes(#[trigger] r[t]@, d) by {
        let u = choose|u: int| 0 <= u < all.len() && r[t]@ == all[u]@;
        assert(closes(all[u]@, d));
    }
}

proof fn lemma_kept_finds(all: Seq<Diagram>, r: Seq<Diagram>, d: DiagramView)
    requires
        forall|c: DiagramView| #[trigger] closes(c, d) ==> finds(all, c),
        forall|u: int| 0 <= u < all.len() ==> finds(r, #[trigger] all[u]@),
    ensures
        forall|c: DiagramView| #[trigger] closes(c, d) ==> finds(r, c),
{
    assert forall|c: DiagramView| #[trigger] closes(c, d) implies finds(r, c) by {
        lemma_finds_through(all, r, c);
    }
}

proof fn lemma_finds_through(all: Seq<Diagram>, r: Seq<Diagram>, c: DiagramView)
    requires
        finds(all, c),
        forall|u: int| 0 <= u < all.len() ==> finds(r, #[trigger] all[u]@),
    ensures
        finds(r, c),
{
    let u = choose|u: int| 0 <= u < all.len() && same_shape(#[trigger] all[u]@, c);
    assert(finds(r, all[u]@));
    let t = choose|t: int| 0 <= t < r.len() && same_shape(#[trigger] r[t]@, all[u]@);
    lemma_shape_trans(r[t]@, all[u]@, c);
}

/// What `draw` promises of its result `r` on a diagram `d`: every diagram of
/// `r` is a closing of `d`, and every closing of `d` is in `r` up to
/// exchanging, within each vertex, legs of one field.
pub open spec fn draw_result(r: Seq<Diagram>, d: DiagramView) -> bool {
    &&& all_close(r, d)
    &&& forall|c: DiagramView| #[trigger] closes(c, d) ==> finds(r, c)
}

/// Two searches on equal diagrams give the same diagrams, up to markers,
/// order and the exchange of legs of one field within a vertex: each diagram
/// of one result has the shape of some diagram of the other.
pub proof fn lemma_draw_determined(d: DiagramView, r1: Seq<Diagram>, r2: Seq<Diagram>)
    requires
        draw_result(r1, d),
        draw_result(r2, d),
    ensures
        forall|t: int| 0 <= t < r1.len() ==> finds(r2, #[trigger] r1[t]@),
        forall|t: int| 0 <= t < r2.len() ==> finds(r1, #[trigger] r2[t]@),
        r1.len() == 0 <==> r2.len() == 0,
{
    assert forall|t: int| 0 <= t < r1.len() implies finds(r2, #[trigger] r1[t]@) by {
        assert(closes(r1[t]@, d));
    }
    assert forall|t: int| 0 <= t < r2.len() implies finds(r1, #[trigger] r2[t]@) by {
        assert(closes(r2[t]@, d));
    }
    if r1.len() > 0 {
        assert(finds(r2, r1[0]@));
    }
    if r2.len() > 0 {
        assert(finds(r1, r2[0]@));
    }
}

proof fn lemma_finds_append(a: Seq<Diagram>, b: Seq<Diagram>, c: DiagramView)
    requires
        finds(a, c) || finds(b, c),
    ensures
        finds(a + b, c),
{
    if finds(a, c) {
        let t = choose|t: int| 0 <= t < a.len() && same_shape(#[trigger] a[t]@, c);
        assert((a + b)[t] == a[t]);
    } else {
        let t = choose|t: int| 0 <= t < b.len() && same_shape(#[trigger] b[t]@, c);
        assert((a + b)[a.len() + t] == b[t]);
    }
}

/// Whether every entry is true.
fn all_true(v: &Vec<bool>) -> (r: bool)
    ensures
        r == forall|k: int| 0 <= k < v@.len() ==> #[trigger] v@[k],
{
    let mut i: usize = 0;
    while i < v.len()
        invariant
            i <= v@.len(),
            forall|k: int| 0 <= k < i ==> #[trigger] v@[k],
        decreases v@.len() - i,
    {
        if !v[i] {
            return false;
        }
        i = i + 1;
    }
    true
}

pub open spec fn views_of_vertices(vs: Seq<Vertex>) -> Seq<VertexView> {
    vs.map_values(|v: Vertex| v@)
}

/// A Feynman diagram: a multigraph over its vertices, whose edges join one
/// leg to another, with self-loops and parallel edges allowed.
#[derive(Clone, Debug)]
pub struct Diagram {
    vertices: Vec<Vertex>,
    left: usize,
}

impl View for Diagram {
    type V = DiagramView;

    closed spec fn view(&self) -> DiagramView {
        DiagramView { vertices: views_of_vertices(self.vertices@), left: self.left as nat }
    }
}

impl Diagram {
    /// A diagram over the given vertices, none of whose legs is joined yet.
    pub fn new(vertices: Vec<Vertex>) -> (r: Diagram)
        requires
            forall|i: int| 0 <= i < vertices@.len() ==> vertex_fresh(#[trigger] vertices@[i]@),
            vertices@.len() <= usize::MAX / 4,
        ensures
            r@.vertices == views_of_vertices(vertices@),
            wf(r@),
    {
        let ghost vs = views_of_vertices(vertices@);
        let mut left: usize = 0;
        let mut i: usize = 0;
        while i < vertices.len()
            invariant
                i <= vertices@.len() <= usize::MAX / 4,
                vs == views_of_vertices(vertices@),
                forall|a: int| 0 <= a < vertices@.len() ==> vertex_fresh(#[trigger] vertices@[a]@),
                left == open_total(vs.take(i as int)),
                left <= 4 * i,
            decreases vertices@.len() - i,
        {
            assert(vs.take(i as int + 1).drop_last() =~= vs.take(i as int));
            assert(vertex_ok(vertices@[i as int]@));
            proof {
                lemma_open_count_bound(vertices@[i as int]@.adj);
            }
            left = left + vertices[i].left();
            i = i + 1;
        }
        assert(vs.take(i as int) =~= vs);
        let r = Diagram { vertices, left };
        assert forall|a: int, b: int|
            0 <= a < r@.vertices.len() && 0 <= b < r@.vertices[a].adj.len() implies #[trigger] slot_ok(r@, a, b) by {
            assert(vertex_fresh(r.vertices@[a]@));
        }
        assert forall|a: int| 0 <= a < r@.vertices.len() implies vertex_ok(#[trigger] r@.vertices[a]) by {
            assert(vertex_fresh(r.vertices@[a]@));
        }
        r
    }

    /// The number of open legs.
    pub fn open_legs(&self) -> (r: usize)
        ensures
            r == self@.left,
    {
        self.left
    }

    /// The number of vertices.
    pub fn len(&self) -> (r: usize)
        ensures
            r == self@.vertices.len(),
    {
        self.vertices.len()
    }

    /// Vertex `v`.
    pub fn vertex(&self, v: usize) -> (r: &Vertex)
        requires
            v < self@.vertices.len(),
        ensures
            r@ == self@.vertices[v as int],
    {
        &self.vertices[v]
    }

    /// A copy of the diagram.
    pub fn copy(&self) -> (r: Diagram)
        ensures
            r@ == self@,
    {
        let mut vs: Vec<Vertex> = Vec::new();
        let mut i: usize = 0;
        while i < self.vertices.len()
            invariant
                i <= self.vertices@.len(),
                vs@.len() == i,
                forall|k: int| 0 <= k < i ==> (#[trigger] vs@[k])@ == self.vertices@[k]@,
            decreases self.vertices@.len() - i,
        {
            vs.push(self.vertices[i].copy());
            i = i + 1;
        }
        let r = Diagram { vertices: vs, left: self.left };
        assert(r@.vertices =~= self@.vertices);
        r
    }

    /// Joins leg `ki` of vertex `i` to leg `kj` of vertex `j`.
    fn connect(&mut self, i: usize, ki: usize, j: usize, kj: usize)
        requires
            wf(old(self)@),
            can_link(old(self)@, i, ki, j, kj),
        ensures
            final(self)@ == link(old(self)@, i, ki, j, kj),
            wf(final(self)@),
            extends(final(self)@, old(self)@),
            final(self)@.left + 2 == old(self)@.left,
    {
        proof {
            lemma_link(self@, i, ki, j, kj);
        }
        let ghost d0 = self@;
        let mut vi = self.vertices[i].copy();
        vi.adj.set(ki, Some((j, kj)));
        self.vertices.set(i, vi);
        let ghost d1 = self@;
        assert(d1.vertices =~= set_slot(d0, i as int, ki as int, Some((j, kj))).vertices);
        let mut vj = self.vertices[j].copy();
        vj.adj.set(kj, Some((i, ki)));
        self.vertices.set(j, vj);
        self.left = self.left - 2;
        assert(self@.vertices =~= link(d0, i, ki, j, kj).vertices);
    }

    /// The vertices reached from `start`, and whether an open leg lies among
    /// them.
    fn component(&self, start: usize) -> (r: (Vec<bool>, bool))
        requires
            wf(self@),
            start < self@.vertices.len(),
        ensures
            r.0@.len() == self@.vertices.len(),
            forall|v: int| 0 <= v < self@.vertices.len() ==> r.0@[v] == reaches(self@, start as int, v),
            r.1 == exists|v: int|
                0 <= v < self@.vertices.len() && #[trigger] reaches(self@, start as int, v) && has_open(
                    self@.vertices[v],
                ),
    {
        let ghost d = self@;
        let n = self.vertices.len();
        let mut vis: Vec<bool> = Vec::new();
        let mut i: usize = 0;
        while i < n
            invariant
                i <= n,
                vis@.len() == i,
                forall|k: int| 0 <= k < i ==> !(#[trigger] vis@[k]),
            decreases n - i,
        {
            vis.push(false);
            i = i + 1;
        }
        assert(count_true(vis@) == 0) by {
            assert forall|m: nat| m <= n implies #[trigger] count_true(vis@.take(m as int)) == 0 by {
                lemma_count_prefix_false(vis@, m);
            }
            assert(vis@.take(n as int) =~= vis@);
        }
        proof {
            lemma_count_true(vis@, start as int);
        }
        vis.set(start, true);
        let mut marked: usize = 1;
        let mut stack: Vec<usize> = Vec::new();
        stack.push(start);
        let mut seen_open = false;
        assert(reaches(d, start as int, start as int));
        assert(stack@[0] == start);
        assert forall|v: int| 0 <= v < n && #[trigger] vis@[v] implies stack@.contains(v as usize) || scanned(d, vis@, seen_open, v) by {
            assert(v == start);
        }
        while stack.len() > 0
            invariant
                d == self@,
                wf(d),
                n == d.vertices.len(),
                start < n,
                vis@.len() == n,
                vis@[start as int],
                marked == count_true(vis@),
                marked <= n,
                forall|v: int| 0 <= v < n && vis@[v] ==> reaches(d, start as int, v),
                forall|t: int| 0 <= t < stack@.len() ==> #[trigger] stack@[t] < n && vis@[stack@[t] as int],
                forall|v: int| 0 <= v < n && #[trigger] vis@[v] ==> stack@.contains(v as usize) || scanned(d, vis@, seen_open, v),
                seen_open ==> exists|v: int| 0 <= v < n && #[trigger] reaches(d, start as int, v) && has_open(d.vertices[v]),
            decreases 2 * (n - marked) + stack@.len(),
        {
            let ghost before_pop = stack@;
            let u = stack.pop().unwrap();
            let ghost rest = stack@;
            let ghost m_start = marked;
            assert(u < n && vis@[u as int]);
            assert forall|v: int|
                0 <= v < n && #[trigger] vis@[v] && v != u implies stack@.contains(v as usize) || scanned(d, vis@, seen_open, v) by {
                if before_pop.contains(v as usize) {
                    let t = choose|t: int| 0 <= t < before_pop.len() && before_pop[t] == v as usize;
                    assert(t != before_pop.len() - 1);
                    assert(stack@[t] == v as usize);
                }
            }
            let m = self.vertices[u].adj.len();
            let mut k: usize = 0;
            while k < m
                invariant
                    d == self@,
                    wf(d),
                    n == d.vertices.len(),
                    u < n,
                    m == d.vertices[u as int].adj.len(),
                    k <= m,
                    start < n,
                    vis@.len() == n,
                    vis@[start as int],
                    vis@[u as int],
                    marked == count_true(vis@),
                    marked <= n,
                    stack@.len() == rest.len() + marked - m_start,
                    marked >= m_start,
                    forall|v: int| 0 <= v < n && vis@[v] ==> reaches(d, start as int, v),
                    forall|t: int| 0 <= t < stack@.len() ==> #[trigger] stack@[t] < n && vis@[stack@[t] as int],
                    forall|v: int|
                        0 <= v < n && #[trigger] vis@[v] && v != u ==> stack@.contains(v as usize) || scanned(d, vis@, seen_open, v),
                    forall|q: int|
                        0 <= q < k && #[trigger] d.vertices[u as int].adj[q] is Some ==> vis@[d.vertices[u as int].adj[q]->Some_0.0 as int],
                    (exists|q: int| 0 <= q < k && #[trigger] d.vertices[u as int].adj[q] is None) ==> seen_open,
                    seen_open ==> exists|v: int| 0 <= v < n && #[trigger] reaches(d, start as int, v) && has_open(d.vertices[v]),
                decreases m - k,
            {
                let ghost vis0 = vis@;
                let ghost open0 = seen_open;
                let ghost stack0 = stack@;
                assert(slot_ok(d, u as int, k as int));
                match self.vertices[u].adj[k] {
                    Some((w, _)) => {
                        if !vis[w] {
                            assert forall|s: Set<int>| #[trigger] closed_under_edges(d, s) && s.contains(start as int) implies s.contains(w as int) by {
                                assert(s.contains(u as int));
                                assert(d.vertices[u as int].adj[k as int] is Some);
                            }
                            proof {
                                lemma_count_true(vis@, w as int);
                            }
                            vis.set(w, true);
                            proof {
                                lemma_count_true_bound(vis@);
                            }
                            stack.push(w);
                            marked = marked + 1;
                            assert(stack@[stack@.len() - 1] == w);
                            assert(stack@.contains(w));
                            assert forall|v: int|
                                0 <= v < n && #[trigger] vis@[v] && v != u implies stack@.contains(v as usize) || scanned(d, vis@, seen_open, v) by {
                                if v == w as int {
                                    assert(stack@.contains(v as usize));
                                } else if stack0.contains(v as usize) {
                                    let t = choose|t: int| 0 <= t < stack0.len() && stack0[t] == v as usize;
                                    assert(stack@[t] == v as usize);
                                } else {
                                    assert(vis0[v]);
                                    assert(scanned(d, vis0, seen_open, v));
                                    assert forall|q: int|
                                        0 <= q < d.vertices[v].adj.len() && #[trigger] d.vertices[v].adj[q] is Some
                                        implies vis@[d.vertices[v].adj[q]->Some_0.0 as int] by {
                                        assert(slot_ok(d, v, q));
                                        assert(vis0[d.vertices[v].adj[q]->Some_0.0 as int]);
                                    }
                                }
                            }
                        }
                    },
                    None => {
                        seen_open = true;
                        assert(has_open(d.vertices[u as int]));
                        assert forall|v: int|
                            0 <= v < n && #[trigger] vis@[v] && v != u implies stack@.contains(v as usize) || scanned(d, vis@, seen_open, v) by {
                            if !stack@.contains(v as usize) {
                                assert(scanned(d, vis0, open0, v));
                            }
                        }
                    },
                }
                assert forall|q: int|
                    0 <= q < k + 1 && #[trigger] d.vertices[u as int].adj[q] is Some implies vis@[d.vertices[u as int].adj[q]->Some_0.0 as int] by {
                    assert(slot_ok(d, u as int, q));
                    if q < k {
                        assert(vis0[d.vertices[u as int].adj[q]->Some_0.0 as int]);
                    }
                }
                k = k + 1;
            }
            assert(scanned(d, vis@, seen_open, u as int));
            assert forall|v: int| 0 <= v < n && #[trigger] vis@[v] implies stack@.contains(v as usize) || scanned(d, vis@, seen_open, v) by {
            }
        }
        assert forall|v: int| 0 <= v < n implies vis@[v] == reaches(d, start as int, v) by {
            if reaches(d, start as int, v) {
                let s = Set::new(|x: int| 0 <= x < n && vis@[x]);
                assert(closed_under_edges(d, s)) by {
                    assert forall|x: int, q: int|
                        s.contains(x) && 0 <= x < d.vertices.len() && 0 <= q < d.vertices[x].adj.len()
                            && #[trigger] d.vertices[x].adj[q] is Some implies s.contains(d.vertices[x].adj[q]->Some_0.0 as int) by {
                        assert(scanned(d, vis@, seen_open, x));
                        assert(slot_ok(d, x, q));
                    }
                }
                assert(s.contains(start as int));
            }
        }
        if !seen_open {
            assert forall|v: int| 0 <= v < n && #[trigger] reaches(d, start as int, v) implies !has_open(d.vertices[v]) by {
                assert(vis@[v]);
                assert(scanned(d, vis@, seen_open, v));
            }
        }
        (vis, seen_open)
    }

    /// Whether the diagram is connected: fully once no leg is open, else in
    /// the sense that no part of it is cut off from the rest for good.
    pub fn is_connected(&self) -> (r: bool)
        requires
            wf(self@),
        ensures
            r == connectivity_ok(self@),
    {
        let n = self.vertices.len();
        if self.left != 0 {
            let mut i: usize = 0;
            while i < n
                invariant
                    wf(self@),
                    self@.left != 0,
                    n == self@.vertices.len(),
                    i <= n,
                    forall|a: int| 0 <= a < i ==> #[trigger] may_grow(self@, a),
                decreases n - i,
            {
                let (vis, open) = self.component(i);
                let all = all_true(&vis);
                if !all && !open {
                    assert(!may_grow(self@, i as int)) by {
                        let v = choose|v: int| 0 <= v < vis@.len() && !vis@[v];
                        assert(!reaches(self@, i as int, v));
                    }
                    assert(!can_connect(self@));
                    assert(self@.left != 0);
                    assert(!connectivity_ok(self@));
                    return false;
                }
                i = i + 1;
            }
            return true;
        }
        if n == 0 {
            return true;
        }
        let (vis, _) = self.component(0);
        all_true(&vis)
    }

    /// Joins leg `ki` of vertex `i` to leg `kj` of vertex `j`, and puts both
    /// vertices on the frontier.
    fn join(&mut self, i: usize, ki: usize, j: usize, kj: usize, Ghost(base): Ghost<DiagramView>)
        requires
            wf(old(self)@),
            wf(base),
            extends(old(self)@, base),
            can_link(old(self)@, i, ki, j, kj),
        ensures
            final(self)@ == with_marker(
                with_marker(link(old(self)@, i, ki, j, kj), i as int, Marker::Frontier),
                j as int,
                Marker::Frontier,
            ),
            wf(final(self)@),
            extends(final(self)@, base),
            final(self)@.left + 2 == old(self)@.left,
            final(self)@.vertices.len() == old(self)@.vertices.len(),
            forall|a: int| 0 <= a < old(self)@.vertices.len() ==> (#[trigger] final(self)@.vertices[a]).legs == old(self)@.vertices[a].legs
                && final(self)@.vertices[a].adj.len() == old(self)@.vertices[a].adj.len(),
            forall|a: int, b: int|
                0 <= a < old(self)@.vertices.len() && 0 <= b < old(self)@.vertices[a].adj.len() && (a, b) != (
                    i as int,
                    ki as int,
                ) && (a, b) != (j as int, kj as int)
                ==> #[trigger] final(self)@.vertices[a].adj[b] == old(self)@.vertices[a].adj[b],
    {
        let ghost d0 = self@;
        self.connect(i, ki, j, kj);
        let ghost d1 = self@;
        self.set_marker(i, Marker::Frontier);
        let ghost d2 = self@;
        self.set_marker(j, Marker::Frontier);
        proof {
            lemma_extends_trans(d1, d0, base);
            lemma_extends_trans(d2, d1, base);
            lemma_extends_trans(self@, d2, base);
        }
    }

    /// The first vertex on the frontier, if any.
    fn first_frontier(&self) -> (r: Option<usize>)
        ensures
            r matches Some(i) ==> i < self@.vertices.len() && self@.vertices[i as int].marker == Marker::Frontier,
    {
        let mut i: usize = 0;
        while i < self.vertices.len()
            invariant
                i <= self.vertices@.len(),
            decreases self.vertices@.len() - i,
        {
            if self.vertices[i].marker == Marker::Frontier {
                return Some(i);
            }
            i = i + 1;
        }
        None
    }

    /// The first open leg of vertex `i`.
    fn first_open_slot(&self, i: usize) -> (r: usize)
        requires
            i < self@.vertices.len(),
            open_count(self@.vertices[i as int].adj) > 0,
        ensures
            r < self@.vertices[i as int].adj.len(),
            self@.vertices[i as int].adj[r as int] is None,
    {
        let v = &self.vertices[i];
        assert(self@.vertices[i as int].adj == v.adj@);
        let mut k: usize = 0;
        while k < v.adj.len()
            invariant
                v == self.vertices@[i as int],
                self@.vertices[i as int].adj == v.adj@,
                k <= v.adj@.len(),
                forall|q: int| 0 <= q < k ==> #[trigger] v.adj@[q] is Some,
            decreases v.adj@.len() - k,
        {
            if v.adj[k].is_none() {
                return k;
            }
            k = k + 1;
        }
        proof {
            lemma_open_count_all_joined(v.adj@);
        }
        0
    }

    /// The first vertex with an open leg.
    fn first_open_vertex(&self) -> (r: usize)
        requires
            wf(self@),
            self@.left > 0,
        ensures
            r < self@.vertices.len(),
            open_count(self@.vertices[r as int].adj) > 0,
    {
        let mut i: usize = 0;
        while i < self.vertices.len()
            invariant
                i <= self.vertices@.len(),
                forall|a: int| 0 <= a < i ==> open_count(#[trigger] self@.vertices[a].adj) == 0,
            decreases self.vertices@.len() - i,
        {
            if self.vertices[i].left() != 0 {
                return i;
            }
            i = i + 1;
        }
        proof {
            lemma_open_total_none(self@.vertices);
        }
        0
    }

    /// Every way to close all open legs, by joining them two by two, each
    /// leg to a leg of the conjugate field, such that the result is
    /// connected. Legs of one field on a vertex are interchangeable: every
    /// closing of the diagram is returned up to exchanging such legs, once,
    /// and nothing else. A diagram with an odd number of open legs has no
    /// closing.
    #[verifier::rlimit(50)]
    pub fn draw(self) -> (r: Vec<Diagram>)
        requires
            wf(self@),
        ensures
            draw_result(r@, self@),
            distinct_shapes(r@),
            self@.left % 2 == 1 ==> r@.len() == 0,
            !connectivity_ok(self@) ==> r@.len() == 0,
            self@.left == 0 ==> r@.len() == (if connected(self@) { 1int } else { 0int }),
            self@.left == 0 && connected(self@) ==> r@[0]@ == self@,
    {
        let ghost d = self@;
        let all = self.search();
        let r = keep_shapes(&all);
        proof {
            lemma_kept_result(all@, r@, d);
            if d.left == 0 && connected(d) {
                assert(all@[0]@ == d);
            }
        }
        r
    }

    /// The closings of the diagram, each joining leg `ki` of the pivot to
    /// the first open leg of the conjugate field on each vertex in turn. The
    /// search grows one connected part at a time from the frontier, and
    /// prunes early a branch in which some part is cut off for good.
    #[verifier::rlimit(50)]
    fn search(self) -> (r: Vec<Diagram>)
        requires
            wf(self@),
        ensures
            draw_result(r@, self@),
            distinct_joins(r@),
            self@.left % 2 == 1 ==> r@.len() == 0,
            !connectivity_ok(self@) ==> r@.len() == 0,
            self@.left == 0 ==> r@.len() == (if connected(self@) { 1int } else { 0int }),
            self@.left == 0 && connected(self@) ==> r@ == seq![self],
        decreases self@.left, frontier_count(self@.vertices), 1nat,
    {
        let n = self.vertices.len();
        assert(self@.vertices.len() == n);
        if self.left % 2 != 0 || !self.is_connected() {
            proof {
                assert forall|c: DiagramView| #[trigger] closes(c, self@) implies finds(Seq::<Diagram>::empty(), c) by {
                    lemma_closable_even(c, self@);
                    lemma_closable_connects(c, self@);
                }
            }
            return Vec::new();
        }
        if self.left == 0 {
            let ghost d = self@;
            let r = vec![self];
            assert(r@ == seq![self]);
            proof {
                assert forall|c: DiagramView| #[trigger] closes(c, d) implies finds(r@, c) by {
                    lemma_closed_same(c, d);
                    lemma_joins_shape(r@[0]@, c);
                    assert(same_shape(r@[0]@, c));
                }
            }
            return r;
        }
        let mut out: Vec<Diagram> = Vec::new();
        match self.first_frontier() {
            Some(i) => {
                if self.vertices[i].left() == 0 {
                    let mut now = self.copy();
                    now.set_marker(i, Marker::Consumed);
                    proof {
                        lemma_frontier_consume(self@.vertices, i as int, now@.vertices[i as int]);
                        assert(now@.vertices == self@.vertices.update(i as int, now@.vertices[i as int]));
                    }
                    let mut sub = now.search();
                    let ghost before = out@;
                    let ghost subs = sub@;
                    proof {
                        lemma_collect(out@, sub@, now@, self@);
                    }
                    out.append(&mut sub);
                    proof {
                        assert forall|c: DiagramView| #[trigger] closes(c, self@) implies finds(out@, c) by {
                            lemma_closes_marked(c, self@, i as int, Marker::Consumed);
                            assert(closes(c, now@));
                            lemma_finds_append(before, subs, c);
                        }
                    }
                } else {
                    let ki = self.first_open_slot(i);
                    out = self.branch_single(i, ki);
                }
            },
            None => {
                let i = self.first_open_vertex();
                let ki = self.first_open_slot(i);
                out = self.branch_single(i, ki);
            },
        }
        out
    }

    /// The closings in which open leg `ki` of vertex `i` is joined to each
    /// vertex that offers an open leg of the conjugate field: to the first
    /// such leg, the legs of one field on a vertex being interchangeable.
    #[verifier::rlimit(100)]
    fn branch_single(&self, i: usize, ki: usize) -> (r: Vec<Diagram>)
        requires
            wf(self@),
            i < self@.vertices.len(),
            ki < self@.vertices[i as int].adj.len(),
            self@.vertices[i as int].adj[ki as int] is None,
        ensures
            all_close(r@, self@),
            forall|c: DiagramView| #[trigger] closes(c, self@) ==> finds(r@, c),
            distinct_joins(r@),
        decreases self@.left, frontier_count(self@.vertices), 0nat,
    {
        assert(vertex_ok(self@.vertices[i as int]));
        let f = self.vertices[i].leg(ki);
        let g = f.anti();
        let n = self.vertices.len();
        assert(self@.vertices.len() == n);
        let mut out: Vec<Diagram> = Vec::new();
        let mut j: usize = 0;
        while j < n
            invariant
                wf(self@),
                n == self@.vertices.len(),
                i < n,
                j <= n,
                ki < self@.vertices[i as int].adj.len(),
                self@.vertices[i as int].adj[ki as int] is None,
                f@ == self@.vertices[i as int].legs[ki as int],
                g@ == f@.anti(),
                all_close(out@, self@),
                distinct_joins(out@),
                forall|x: int| 0 <= x < out@.len() ==> (#[trigger] out@[x])@.vertices[i as int].adj[ki as int]->Some_0.0 < j,
                forall|c: DiagramView| #[trigger] closes(c, self@)
                    && c.vertices[i as int].adj[ki as int]->Some_0.0 < j ==> finds(out@, c),
            decreases n - j,
        {
            assert(vertex_ok(self@.vertices[j as int]));
            let kjs = self.vertices[j].ports(&g);
            let pick: Option<usize> = if kjs.len() == 0 {
                None
            } else if j == i && kjs[0] == ki {
                if kjs.len() > 1 { Some(kjs[1]) } else { None }
            } else {
                Some(kjs[0])
            };
            proof {
                // A closing that joins leg `ki` to vertex `j` joins it to one
                // of the legs listed, and one other than `ki` is picked.
                assert forall|c: DiagramView| #[trigger] closes(c, self@)
                    && c.vertices[i as int].adj[ki as int]->Some_0.0 == j implies pick is Some by {
                    lemma_partner(c, self@, i, ki);
                    let p = c.vertices[i as int].adj[ki as int]->Some_0;
                    assert(kjs@.contains(p.1));
                    if j == i && kjs@[0] == ki {
                        let u = choose|u: int| 0 <= u < kjs@.len() && kjs@[u] == p.1;
                        assert(u != 0);
                    }
                }
            }
            match pick {
                Some(k0) => {
                    let mut now = self.copy();
                    now.join(i, ki, j, k0, Ghost(self@));
                    let mut sub = now.search();
                    let ghost before = out@;
                    let ghost subs = sub@;
                    proof {
                        lemma_collect(out@, sub@, now@, self@);
                    }
                    out.append(&mut sub);
                    proof {
                        assert(out@ == before + subs);
                        assert forall|x: int| 0 <= x < subs.len() implies (#[trigger] subs[x])@.vertices[i as int].adj[ki as int] == Some((j, k0)) by {
                            assert(closes(subs[x]@, now@));
                            assert(now@.vertices[i as int].adj[ki as int] == Some((j, k0)));
                        }
                        assert forall|x: int| 0 <= x < out@.len() implies (#[trigger] out@[x])@.vertices[i as int].adj[ki as int]->Some_0.0 < j + 1 by {
                            if x >= before.len() {
                                assert(out@[x] == subs[x - before.len()]);
                            } else {
                                assert(out@[x] == before[x]);
                            }
                        }
                        assert forall|a: int, b: int| 0 <= a < b < out@.len() implies !same_joins(#[trigger] out@[a]@, #[trigger] out@[b]@) by {
                            if b >= before.len() && a < before.len() {
                                assert(out@[a] == before[a]);
                                assert(out@[b] == subs[b - before.len()]);
                                assert(before[a]@.vertices[i as int].adj != subs[b - before.len()]@.vertices[i as int].adj);
                            } else if a >= before.len() {
                                assert(out@[a] == subs[a - before.len()]);
                                assert(out@[b] == subs[b - before.len()]);
                            } else {
                                assert(out@[a] == before[a]);
                                assert(out@[b] == before[b]);
                            }
                        }
                        assert forall|c: DiagramView| #[trigger] closes(c, self@)
                            && c.vertices[i as int].adj[ki as int]->Some_0.0 < j + 1 implies finds(out@, c) by {
                            lemma_partner(c, self@, i, ki);
                            let p = c.vertices[i as int].adj[ki as int]->Some_0;
                            if p.0 == j {
                                assert(p.1 != ki || j != i);
                                if p.1 == k0 {
                                    lemma_closes_joined(c, self@, i, ki, j, k0);
                                    assert(closes(c, now@));
                                    lemma_finds_append(before, subs, c);
                                } else {
                                    assert(self@.vertices[j as int].legs[p.1 as int] == g@);
                                    lemma_swap_closes(c, self@, j, p.1, k0);
                                    let c2 = swap_legs(c, j, p.1, k0);
                                    lemma_swap_legs(c, j, p.1, k0);
                                    assert(c2.vertices[i as int].adj[ki as int] == Some((j, k0)));
                                    lemma_closes_joined(c2, self@, i, ki, j, k0);
                                    assert(closes(c2, now@));
                                    let t = choose|t: int| 0 <= t < subs.len() && same_shape(#[trigger] subs[t]@, c2);
                                    lemma_shape_trans(subs[t]@, c2, c);
                                    assert(same_shape(subs[t]@, c));
                                    lemma_finds_append(before, subs, c);
                                }
                            } else {
                                lemma_finds_append(before, subs, c);
                            }
                        }
                    }
                },
                None => {},
            }
            j = j + 1;
        }
        proof {
            assert forall|c: DiagramView| #[trigger] closes(c, self@) implies finds(out@, c) by {
                lemma_partner(c, self@, i, ki);
            }
        }
        out
    }

    /// The edges of the diagram, each listed once, from its lower end, in
    /// increasing order of that end. A self-loop is listed once too.
    pub fn edges(&self) -> (r: Vec<Edge>)
        requires
            wf(self@),
        ensures
            is_edge_list(self@, r@),
    {
        let n = self.vertices.len();
        let mut r: Vec<Edge> = Vec::new();
        let mut i: usize = 0;
        while i < n
            invariant
                wf(self@),
                n == self@.vertices.len(),
                i <= n,
                forall|t: int| 0 <= t < r@.len() ==> lists_edge(self@, #[trigger] r@[t]) && r@[t].from < i,
                forall|a: int, b: int|
                    0 <= a < b < r@.len() ==> before((r@[a].from, r@[a].from_leg), (r@[b].from, r@[b].from_leg)),
                forall|a: int, k: int|
                    0 <= a < i && 0 <= k < self@.vertices[a].adj.len() && #[trigger] self@.vertices[a].adj[k] is Some
                        && before((a as usize, k as usize), self@.vertices[a].adj[k]->Some_0) ==> exists|t: int|
                        0 <= t < r@.len() && r@[t].from == a && r@[t].from_leg == k,
            decreases n - i,
        {
            let v = &self.vertices[i];
            assert(self@.vertices[i as int].adj == v.adj@);
            assert(vertex_ok(self@.vertices[i as int]));
            let m = v.adj.len();
            let mut k: usize = 0;
            while k < m
                invariant
                    wf(self@),
                    n == self@.vertices.len(),
                    i < n,
                    v == self.vertices@[i as int],
                    self@.vertices[i as int].adj == v.adj@,
                    m == v.adj@.len(),
                    vertex_ok(self@.vertices[i as int]),
                    k <= m,
                    forall|t: int|
                        0 <= t < r@.len() ==> lists_edge(self@, #[trigger] r@[t]) && (r@[t].from < i || (
                        r@[t].from == i && r@[t].from_leg < k)),
                    forall|a: int, b: int|
                        0 <= a < b < r@.len() ==> before((r@[a].from, r@[a].from_leg), (r@[b].from, r@[b].from_leg)),
                    forall|a: int, q: int|
                        (0 <= a < i || (a == i && 0 <= q < k)) && 0 <= q < self@.vertices[a].adj.len()
                            && #[trigger] self@.vertices[a].adj[q] is Some && before(
                            (a as usize, q as usize),
                            self@.vertices[a].adj[q]->Some_0,
                        ) ==> exists|t: int| 0 <= t < r@.len() && r@[t].from == a && r@[t].from_leg == q,
                decreases m - k,
            {
                if let Some((j, kj)) = v.adj[k] {
                    if i < j || (i == j && k < kj) {
                        let e = Edge { from: i, from_leg: k, to: j, to_leg: kj, kind: v.leg(k).kind() };
                        let ghost r0 = r@;
                        r.push(e);
                        assert(r@[r@.len() - 1] == e);
                        assert forall|a: int, q: int|
                            (0 <= a < i || (a == i && 0 <= q < k + 1)) && 0 <= q < self@.vertices[a].adj.len()
                                && #[trigger] self@.vertices[a].adj[q] is Some && before(
                                (a as usize, q as usize),
                                self@.vertices[a].adj[q]->Some_0,
                            ) implies exists|t: int| 0 <= t < r@.len() && r@[t].from == a && r@[t].from_leg == q by {
                            if a == i && q == k {
                                assert(r@[r@.len() - 1].from == a && r@[r@.len() - 1].from_leg == q);
                            } else {
                                let t = choose|t: int| 0 <= t < r0.len() && r0[t].from == a && r0[t].from_leg == q;
                                assert(r@[t] == r0[t]);
                            }
                        }
                    }
                }
                k = k + 1;
            }
            i = i + 1;
        }
        r
    }

    /// The diagram as text: one line per edge, as `edges` lists them.
    pub fn render(&self) -> (r: String)
        requires
            wf(self@),
        ensures
            exists|es: Seq<Edge>| is_edge_list(self@, es) && r@ == edges_text(es),
    {
        let es = self.edges();
        let mut r = String::new();
        let mut t: usize = 0;
        while t < es.len()
            invariant
                t <= es@.len(),
                r@ == edges_text(es@.take(t as int)),
            decreases es@.len() - t,
        {
            assert(es@.take(t as int + 1).drop_last() =~= es@.take(t as int));
            r.append(line_text(es[t]).as_str());
            t = t + 1;
        }
        assert(es@.take(t as int) =~= es@);
        r
    }

    /// Sets the marker of vertex `i`.
    fn set_marker(&mut self, i: usize, m: Marker)
        requires
            wf(old(self)@),
            i < old(self)@.vertices.len(),
        ensures
            final(self)@ == with_marker(old(self)@, i as int, m),
            wf(final(self)@),
            extends(final(self)@, old(self)@),
    {
        proof {
            lemma_with_marker(self@, i as int, m);
        }
        let ghost d0 = self@;
        let mut v = self.vertices[i].copy();
        v.marker = m;
        self.vertices.set(i, v);
        assert(self@.vertices =~= with_marker(d0, i as int, m).vertices);
    }
}

} // verus!
