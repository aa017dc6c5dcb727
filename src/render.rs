//! Listing the edges of a diagram and writing them as text.
use vstd::prelude::*;
use vstd::string::*;
use crate::field::FieldKind;
use crate::graph::{DiagramView, slot_ok, wf};
use crate::notation::text_of;

verus! {

/// One edge of a diagram, listed from its lower end: leg `from_leg` of
/// vertex `from` joined to leg `to_leg` of vertex `to`, carrying a field of
/// kind `kind` (the kind at the lower end).
#[derive(Clone, Copy, PartialEq, Eq, Structural, Debug)]
pub struct Edge {
    pub from: usize,
    pub from_leg: usize,
    pub to: usize,
    pub to_leg: usize,
    pub kind: FieldKind,
}

/// Leg `a` comes before leg `b` when ordered by vertex, then by leg.
pub open spec fn before(a: (usize, usize), b: (usize, usize)) -> bool {
    a.0 < b.0 || (a.0 == b.0 && a.1 < b.1)
}

/// `e` is an edge of `d`, listed from its lower end.
pub open spec fn lists_edge(d: DiagramView, e: Edge) -> bool {
    &&& e.from < d.vertices.len()
    &&& e.from_leg < d.vertices[e.from as int].adj.len()
    &&& d.vertices[e.from as int].adj[e.from_leg as int] == Some((e.to, e.to_leg))
    &&& before((e.from, e.from_leg), (e.to, e.to_leg))
    &&& e.kind == d.vertices[e.from as int].legs[e.from_leg as int].kind
}

/// `es` lists each edge of `d` from its lower end, in increasing order of
/// that end.
pub open spec fn is_edge_list(d: DiagramView, es: Seq<Edge>) -> bool {
    &&& forall|t: int| 0 <= t < es.len() ==> lists_edge(d, #[trigger] es[t])
    &&& forall|a: int, b: int|
        0 <= a < b < es.len() ==> before((es[a].from, es[a].from_leg), (es[b].from, es[b].from_leg))
    &&& forall|i: int, k: int|
        0 <= i < d.vertices.len() && 0 <= k < d.vertices[i].adj.len() && #[trigger] d.vertices[i].adj[k] is Some
            && before((i as usize, k as usize), d.vertices[i].adj[k]->Some_0) ==> exists|t: int|
            0 <= t < es.len() && es[t].from == i && es[t].from_leg == k
}

/// The line style of an edge that carries a field of kind `k`.
pub open spec fn style_of(k: FieldKind) -> Seq<char> {
    match k {
        FieldKind::RealScalar => "scalar"@,
        FieldKind::ComplexScalar(x) => if x { "charged scalar"@ } else { "anti charged scalar"@ },
        FieldKind::RealVector => "boson"@,
        FieldKind::ComplexVector(x) => if x { "charged boson"@ } else { "anti charged boson"@ },
        FieldKind::Spinor(x) => if x { "anti fermion"@ } else { "fermion"@ },
    }
}

/// The decimal digits of `n`.
pub open spec fn decimal(n: nat) -> Seq<char>
    decreases n,
{
    if n < 10 {
        seq![digit(n)]
    } else {
        decimal(n / 10).push(digit(n % 10))
    }
}

pub open spec fn digit(n: nat) -> char {
    if n < 10 { ((n + 48) as u8) as char } else { '?' }
}

/// The line of an edge: `\t<from> -- [<style>] <to>,` and a line break, where
/// a self-loop adds `, min distance=2.5cm` to the style.
pub open spec fn edge_line(e: Edge) -> Seq<char> {
    seq!['\t'] + decimal(e.from as nat) + " -- ["@ + style_of(e.kind) + (if e.from == e.to {
        ", min distance=2.5cm"@
    } else {
        seq![]
    }) + "] "@ + decimal(e.to as nat) + ",\n"@
}

/// The lines of the edges, one after another.
pub open spec fn edges_text(es: Seq<Edge>) -> Seq<char>
    decreases es.len(),
{
    if es.len() == 0 {
        seq![]
    } else {
        edges_text(es.drop_last()) + edge_line(es.last())
    }
}

/// The decimal digits of `n`, as characters.
fn decimal_chars(n: usize) -> (r: Vec<char>)
    ensures
        r@ == decimal(n as nat),
    decreases n,
{
    let d: u8 = (n % 10) as u8;
    let c = (d + 48) as char;
    if n < 10 {
        let mut r: Vec<char> = Vec::new();
        r.push(c);
        assert(r@ =~= seq![digit(n as nat)]);
        r
    } else {
        let mut r = decimal_chars(n / 10);
        r.push(c);
        r
    }
}

/// The decimal digits of `n`.
fn decimal_text(n: usize) -> (r: String)
    ensures
        r@ == decimal(n as nat),
{
    text_of(&decimal_chars(n))
}

fn style_text(k: FieldKind) -> (r: &'static str)
    ensures
        r@ == style_of(k),
{
    match k {
        FieldKind::RealScalar => "scalar",
        FieldKind::ComplexScalar(x) => if x { "charged scalar" } else { "anti charged scalar" },
        FieldKind::RealVector => "boson",
        FieldKind::ComplexVector(x) => if x { "charged boson" } else { "anti charged boson" },
        FieldKind::Spinor(x) => if x { "anti fermion" } else { "fermion" },
    }
}

/// The line of one edge.
pub(crate) fn line_text(e: Edge) -> (r: String)
    ensures
        r@ == edge_line(e),
{
    let mut r = String::new();
    r.append("\t");
    r.append(decimal_text(e.from).as_str());
    r.append(" -- [");
    r.append(style_text(e.kind));
    if e.from == e.to {
        r.append(", min distance=2.5cm");
    }
    r.append("] ");
    r.append(decimal_text(e.to).as_str());
    r.append(",\n");
    proof {
        reveal_strlit("\t");
        assert("\t"@ =~= seq!['\t']);
        assert(r@ =~= edge_line(e));
    }
    r
}

/// Entry `t` of `es` has leg `k` of vertex `i` at one of its ends.
pub open spec fn touches(es: Seq<Edge>, t: int, i: usize, k: usize) -> bool {
    (es[t].from == i && es[t].from_leg == k) || (es[t].to == i && es[t].to_leg == k)
}

/// In an edge list of a well-formed diagram, every joined leg, a leg of a
/// self-loop included, is an end of exactly one listed edge.
pub proof fn lemma_each_edge_listed_once(d: DiagramView, es: Seq<Edge>, i: usize, k: usize)
    requires
        wf(d),
        is_edge_list(d, es),
        i < d.vertices.len(),
        k < d.vertices[i as int].adj.len(),
        d.vertices[i as int].adj[k as int] is Some,
    ensures
        exists|t: int| 0 <= t < es.len() && touches(es, t, i, k),
        forall|t1: int, t2: int|
            0 <= t1 < es.len() && 0 <= t2 < es.len() && touches(es, t1, i, k) && touches(es, t2, i, k) ==> t1 == t2,
{
    let p = d.vertices[i as int].adj[k as int]->Some_0;
    assert(slot_ok(d, i as int, k as int));
    let (j, kj) = (p.0 as int, p.1 as int);
    assert(slot_ok(d, j, kj));
    // Any entry that touches leg (i, k) is the edge between (i, k) and p,
    // listed from whichever of the two comes first.
    assert forall|t: int| 0 <= t < es.len() && touches(es, t, i, k) implies
        (before((i, k), p) ==> es[t].from == i && es[t].from_leg == k)
        && (!before((i, k), p) ==> es[t].from == j && es[t].from_leg == kj) by {
        assert(lists_edge(d, es[t]));
        let e = es[t];
        if e.to == i && e.to_leg == k {
            assert(slot_ok(d, e.from as int, e.from_leg as int));
        }
    }
    if before((i, k), p) {
        let t = choose|t: int| 0 <= t < es.len() && es[t].from == i && es[t].from_leg == k;
        assert(touches(es, t, i, k));
    } else {
        assert(before(p, (i, k)));
        assert(d.vertices[j].adj[kj] is Some);
        assert(d.vertices[j].adj[kj]->Some_0 == (i, k));
        assert(before((j as usize, kj as usize), d.vertices[j].adj[kj]->Some_0));
        assert(exists|t: int| 0 <= t < es.len() && es[t].from == j && es[t].from_leg == kj);
        let t = choose|t: int| 0 <= t < es.len() && es[t].from == j && es[t].from_leg == kj;
        assert(lists_edge(d, es[t]));
        assert(es[t].from as int == j && es[t].from_leg as int == kj);
        assert(d.vertices[es[t].from as int].adj[es[t].from_leg as int] == Some((es[t].to, es[t].to_leg)));
        assert(Some((es[t].to, es[t].to_leg)) == Some((i, k)));
        assert(es[t].to == i);
        assert(touches(es, t, i, k));
    }
    assert forall|t1: int, t2: int|
        0 <= t1 < es.len() && 0 <= t2 < es.len() && touches(es, t1, i, k) && touches(es, t2, i, k) implies t1 == t2 by {
        if t1 < t2 {
            assert(before((es[t1].from, es[t1].from_leg), (es[t2].from, es[t2].from_leg)));
        } else if t2 < t1 {
            assert(before((es[t2].from, es[t2].from_leg), (es[t1].from, es[t1].from_leg)));
        }
    }
}

} // verus!
