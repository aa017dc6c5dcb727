use feynman::diagram::{Diagram, Inout, Vertex};
use feynman::field::{Field, FieldKind};
use feynman::lagrangian::Interaction;

fn phi() -> Field {
    Field::new(FieldKind::RealScalar, "\\phi")
}

fn psi() -> Field {
    Field::new(FieldKind::Spinor(false), "\\psi")
}

fn phi4() -> Interaction {
    Interaction::new(vec![phi(), phi(), phi(), phi()]).unwrap()
}

fn phi3() -> Interaction {
    Interaction::new(vec![phi(), phi(), phi()]).unwrap()
}

fn yukawa() -> Interaction {
    Interaction::new(vec![psi().anti(), psi(), phi()]).unwrap()
}

fn two_point_phi4() -> Diagram {
    Diagram::new(vec![
        Vertex::inout(phi(), Inout::In),
        Vertex::inout(phi(), Inout::Out),
        Vertex::internal(phi4()),
        Vertex::internal(phi4()),
    ])
}

fn assert_all_closed(ds: &[Diagram]) {
    for d in ds {
        assert_eq!(d.open_legs(), 0);
        assert!(d.is_connected());
    }
}

#[test]
fn new_counts_open_legs() {
    assert_eq!(two_point_phi4().open_legs(), 10);
    assert_eq!(two_point_phi4().len(), 4);
}

#[test]
fn odd_open_legs_give_nothing() {
    let d = Diagram::new(vec![Vertex::external(phi()), Vertex::external(phi()), Vertex::external(phi())]);
    assert_eq!(d.open_legs(), 3);
    assert!(d.draw().is_empty());
    let d = Diagram::new(vec![Vertex::external(phi()), Vertex::internal(phi4())]);
    assert!(d.draw().is_empty());
}

#[test]
fn empty_diagram_is_its_own_closing() {
    let d = Diagram::new(vec![]);
    assert!(d.is_connected());
    let r = d.draw();
    assert_eq!(r.len(), 1);
    assert_eq!(r[0].render(), "");
}

#[test]
fn closed_diagram_draws_to_itself() {
    let first = two_point_phi4().draw();
    assert!(!first.is_empty());
    for d in &first {
        let text = d.render();
        let again = d.copy().draw();
        assert_eq!(again.len(), 1);
        assert_eq!(again[0].render(), text);
    }
}

#[test]
fn propagator_joins_two_externals() {
    let d = Diagram::new(vec![Vertex::external(phi()), Vertex::external(phi())]);
    let r = d.draw();
    assert_eq!(r.len(), 1);
    assert_eq!(r[0].render(), "\t0 -- [scalar] 1,\n");
}

#[test]
fn incompatible_legs_are_never_joined() {
    let d = Diagram::new(vec![Vertex::external(psi()), Vertex::external(psi())]);
    assert!(d.draw().is_empty());
    let d = Diagram::new(vec![Vertex::external(psi()), Vertex::external(phi())]);
    assert!(d.draw().is_empty());
}

#[test]
fn disconnected_closings_are_pruned() {
    // Two propagators could close every leg, but not into one diagram.
    let d = Diagram::new(vec![
        Vertex::external(phi()),
        Vertex::external(phi()),
        Vertex::external(psi()),
        Vertex::external(psi().anti()),
    ]);
    assert!(d.draw().is_empty());
}

#[test]
fn yukawa_vertex_renders_each_edge() {
    let d = Diagram::new(vec![
        Vertex::external(psi()),
        Vertex::external(psi().anti()),
        Vertex::external(phi()),
        Vertex::internal(yukawa()),
    ]);
    let r = d.draw();
    assert_eq!(r.len(), 1);
    assert_eq!(r[0].render(), "\t0 -- [fermion] 3,\n\t1 -- [anti fermion] 3,\n\t2 -- [scalar] 3,\n");
    let es = r[0].edges();
    assert_eq!(es.len(), 3);
    assert_eq!((es[0].from, es[0].from_leg, es[0].to, es[0].to_leg), (0, 0, 3, 0));
    assert_eq!((es[1].from, es[1].from_leg, es[1].to, es[1].to_leg), (1, 0, 3, 1));
    assert_eq!(es[2].kind, FieldKind::RealScalar);
}

#[test]
fn two_point_phi4_enumerates_all_shapes() {
    let r = two_point_phi4().draw();
    assert_all_closed(&r);
    // For each of the two vertices that the in-leg may join: both externals
    // on it, or a self-loop on each and a bridge, or a triple line.
    assert_eq!(r.len(), 6);
    let texts: Vec<String> = r.iter().map(|d| d.render()).collect();
    // Ten legs make five edges in every closing.
    for t in &texts {
        assert_eq!(t.lines().count(), 5);
    }
    // Both externals on one vertex, with a self-loop on the other.
    assert!(texts.iter().any(|t| t.contains("\t0 -- [scalar] 2,") && t.contains("\t1 -- [scalar] 2,")
        && t.contains("\t3 -- [scalar, min distance=2.5cm] 3,")));
    // One external on each vertex, three lines between them.
    assert!(texts.iter().any(|t| t.contains("\t0 -- [scalar] 2,") && t.contains("\t1 -- [scalar] 3,")
        && !t.contains("min distance")));
    // One external on each vertex, a self-loop on each and a bridge.
    assert!(texts.iter().any(|t| t.contains("\t1 -- [scalar] 3,")
        && t.contains("\t2 -- [scalar, min distance=2.5cm] 2,")
        && t.contains("\t3 -- [scalar, min distance=2.5cm] 3,")));
    // The two externals are never joined directly: the vertices would be cut off.
    assert!(texts.iter().all(|t| !t.contains("\t0 -- [scalar] 1,")));
}

#[test]
fn repeated_draws_agree() {
    let a: Vec<String> = two_point_phi4().draw().iter().map(|d| d.render()).collect();
    let b: Vec<String> = two_point_phi4().draw().iter().map(|d| d.render()).collect();
    assert_eq!(a, b);
    let mut sa = a.clone();
    let mut sb = b.clone();
    sa.sort();
    sb.sort();
    assert_eq!(sa, sb);
}

#[test]
fn vacuum_bubbles_without_externals() {
    let d = Diagram::new(vec![Vertex::internal(phi3()), Vertex::internal(phi3())]);
    let r = d.draw();
    assert!(!r.is_empty());
    assert_all_closed(&r);
    let texts: Vec<String> = r.iter().map(|d| d.render()).collect();
    // Three lines between the two vertices.
    assert!(texts.iter().any(|t| t.matches("\t0 -- [scalar] 1,").count() == 3));
    // A self-loop on each vertex and a bridge.
    assert!(texts.iter().any(|t| t.contains("\t0 -- [scalar, min distance=2.5cm] 0,")
        && t.contains("\t1 -- [scalar, min distance=2.5cm] 1,")
        && t.contains("\t0 -- [scalar] 1,")));
}

#[test]
fn self_loop_is_listed_once() {
    let d = Diagram::new(vec![Vertex::external(phi()), Vertex::external(phi()), Vertex::internal(phi4())]);
    let r = d.draw();
    // Both externals on the vertex, the other two legs closing a loop.
    assert_eq!(r.len(), 1);
    for x in &r {
        let t = x.render();
        assert_eq!(t, "\t0 -- [scalar] 2,\n\t1 -- [scalar] 2,\n\t2 -- [scalar, min distance=2.5cm] 2,\n");
        assert_eq!(x.edges().len(), 3);
        assert_eq!(t.matches("min distance").count(), 1);
    }
}

#[test]
fn styles_follow_field_kinds() {
    let s = Field::new(FieldKind::ComplexScalar(false), "\\varphi");
    let a = Field::new(FieldKind::RealVector, "A");
    let t = Interaction::new(vec![s.clone(), s.anti(), a.clone()]).unwrap();
    let d = Diagram::new(vec![
        Vertex::external(s.anti()),
        Vertex::external(s.clone()),
        Vertex::external(a.clone()),
        Vertex::internal(t),
    ]);
    let r = d.draw();
    assert_eq!(r.len(), 1);
    assert_eq!(r[0].render(), "\t0 -- [charged scalar] 3,\n\t1 -- [anti charged scalar] 3,\n\t2 -- [boson] 3,\n");
}

#[test]
fn direction_is_kept_on_externals() {
    let r = two_point_phi4().draw();
    assert!(!r.is_empty());
    for d in &r {
        assert_eq!(d.vertex(0).direction(), Some(Inout::In));
        assert_eq!(d.vertex(1).direction(), Some(Inout::Out));
        assert_eq!(d.vertex(2).direction(), None);
    }
    assert_eq!(Vertex::inout(phi(), Inout::In).direction(), Some(Inout::In));
    assert_eq!(Vertex::external(phi()).direction(), Some(Inout::Unknown));
    assert_eq!(Vertex::internal(phi3()).direction(), None);
}
