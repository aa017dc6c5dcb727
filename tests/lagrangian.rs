use feynman::field::{Field, FieldKind};
use feynman::lagrangian::{CheckedLagrangian, Interaction, LagrangianError, UncheckedLagrangian};

fn phi() -> Field {
    Field::new(FieldKind::RealScalar, "\\phi")
}

fn psi() -> Field {
    Field::new(FieldKind::Spinor(false), "\\psi")
}

fn yukawa() -> Interaction {
    Interaction::new(vec![phi(), psi().anti(), psi()]).unwrap()
}

#[test]
fn too_few_factors_are_refused() {
    assert_eq!(Interaction::new(vec![phi(), phi()]).unwrap_err(), LagrangianError::DegreeOutOfRange);
    assert_eq!(Interaction::new(vec![]).unwrap_err(), LagrangianError::DegreeOutOfRange);
}

#[test]
fn too_many_factors_are_refused() {
    let five = vec![phi(), phi(), phi(), phi(), phi()];
    assert_eq!(Interaction::new(five).unwrap_err(), LagrangianError::DegreeOutOfRange);
}

#[test]
fn degree_is_checked_before_charge() {
    assert_eq!(Interaction::new(vec![psi(), psi()]).unwrap_err(), LagrangianError::DegreeOutOfRange);
}

#[test]
fn charge_violations_are_refused() {
    assert_eq!(Interaction::new(vec![phi(), psi(), psi()]).unwrap_err(), LagrangianError::ChargeViolation);
    let v = Field::new(FieldKind::ComplexVector(false), "F");
    assert_eq!(Interaction::new(vec![v.clone(), v.clone(), phi()]).unwrap_err(), LagrangianError::ChargeViolation);
    let s = Field::new(FieldKind::ComplexScalar(true), "\\varphi");
    assert_eq!(Interaction::new(vec![s, phi(), phi(), phi()]).unwrap_err(), LagrangianError::ChargeViolation);
}

#[test]
fn conserving_terms_are_accepted() {
    assert!(Interaction::new(vec![phi(), phi(), phi()]).is_ok());
    assert!(Interaction::new(vec![phi(), phi(), phi(), phi()]).is_ok());
    let s = Field::new(FieldKind::ComplexScalar(false), "\\varphi");
    let a = Field::new(FieldKind::RealVector, "A");
    let t = Interaction::new(vec![s.clone(), s.anti(), a]).unwrap();
    assert_eq!(t.factors().len(), 3);
    assert!(t.factors()[1] == s.anti());
}

#[test]
fn interaction_text_joins_factors() {
    assert_eq!(yukawa().to_text(), "\\phi * \\bar \\psi * \\psi");
}

#[test]
fn fields_are_collected_once_in_order() {
    let mut l = UncheckedLagrangian::new();
    l.push(yukawa());
    l.push(Interaction::new(vec![phi(), phi(), phi(), phi()]).unwrap());
    let c = CheckedLagrangian::new(l).unwrap();
    assert_eq!(c.interactions().len(), 2);
    let fs = c.fields();
    assert_eq!(fs.len(), 3);
    assert!(fs[0] == phi());
    assert!(fs[1] == psi().anti());
    assert!(fs[2] == psi());
    assert_eq!(c.to_text(), "\\phi * \\bar \\psi * \\psi + \\phi * \\phi * \\phi * \\phi");
}

#[test]
fn unpaired_field_is_refused() {
    let s = Field::new(FieldKind::ComplexScalar(false), "\\varphi");
    let t = Field::new(FieldKind::ComplexScalar(false), "\\chi");
    // Charges balance, but neither field meets its own conjugate.
    let term = Interaction::new(vec![s.clone(), t.anti(), phi()]).unwrap();
    let mut l = UncheckedLagrangian::new();
    l.push(term);
    assert_eq!(CheckedLagrangian::new(l).unwrap_err(), LagrangianError::UnpairedField);
}

#[test]
fn self_conjugate_fields_pair_with_themselves() {
    let mut l = UncheckedLagrangian::new();
    l.push(Interaction::new(vec![phi(), phi(), phi()]).unwrap());
    assert!(CheckedLagrangian::new(l).is_ok());
}

#[test]
fn empty_theory_is_paired() {
    assert!(CheckedLagrangian::new(UncheckedLagrangian::new()).is_ok());
}
