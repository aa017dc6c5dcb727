use feynman::field::{Field, FieldKind};

fn all_kinds() -> Vec<FieldKind> {
    vec![
        FieldKind::RealScalar,
        FieldKind::ComplexScalar(false),
        FieldKind::ComplexScalar(true),
        FieldKind::RealVector,
        FieldKind::ComplexVector(false),
        FieldKind::ComplexVector(true),
        FieldKind::Spinor(false),
        FieldKind::Spinor(true),
    ]
}

#[test]
fn anti_is_an_involution() {
    for k in all_kinds() {
        assert_eq!(k.anti().anti(), k);
    }
}

#[test]
fn anti_flips_charge_and_fixes_real_kinds() {
    assert_eq!(FieldKind::RealScalar.anti(), FieldKind::RealScalar);
    assert_eq!(FieldKind::RealVector.anti(), FieldKind::RealVector);
    assert_eq!(FieldKind::ComplexScalar(false).anti(), FieldKind::ComplexScalar(true));
    assert_eq!(FieldKind::ComplexVector(true).anti(), FieldKind::ComplexVector(false));
    assert_eq!(FieldKind::Spinor(false).anti(), FieldKind::Spinor(true));
}

#[test]
fn field_anti_keeps_name() {
    let psi = Field::new(FieldKind::Spinor(false), "\\psi");
    let bar = psi.anti();
    assert_eq!(bar.kind(), FieldKind::Spinor(true));
    assert_eq!(bar.name(), "\\psi");
    assert!(bar != psi);
    assert!(bar.anti() == psi);
}

#[test]
fn field_equality_is_structural() {
    let a = Field::new(FieldKind::RealScalar, "\\phi");
    let b = Field::new(FieldKind::RealScalar, "\\phi");
    let c = Field::new(FieldKind::RealScalar, "\\chi");
    let d = Field::new(FieldKind::RealVector, "\\phi");
    assert!(a == b);
    assert!(a != c);
    assert!(a != d);
}

#[test]
fn field_text_marks_antiparticles() {
    assert_eq!(Field::new(FieldKind::Spinor(true), "\\psi").to_text(), "\\bar \\psi");
    assert_eq!(Field::new(FieldKind::Spinor(false), "\\psi").to_text(), "\\psi");
    assert_eq!(Field::new(FieldKind::RealScalar, "\\phi").to_text(), "\\phi");
    assert_eq!(Field::new(FieldKind::ComplexVector(true), "F").to_text(), "\\bar F");
}
