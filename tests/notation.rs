use feynman::field::FieldKind;
use feynman::lagrangian::LagrangianError;
use feynman::notation::{build, parse, ParseError};

#[test]
fn reads_yukawa_theory() {
    let l = parse(r"\phi\bar\psi\psi").unwrap();
    assert_eq!(l.interactions().len(), 1);
    let fs = l.fields();
    assert_eq!(fs.len(), 3);
    assert_eq!(fs[0].kind(), FieldKind::RealScalar);
    assert_eq!(fs[0].name(), r"\phi");
    assert_eq!(fs[1].kind(), FieldKind::Spinor(true));
    assert_eq!(fs[2].kind(), FieldKind::Spinor(false));
    assert_eq!(l.to_text(), r"\phi * \bar \psi * \psi");
}

#[test]
fn numeric_superscript_repeats_factor() {
    let l = parse(r"\phi^4").unwrap();
    assert_eq!(l.interactions()[0].factors().len(), 4);
    assert_eq!(l.fields().len(), 1);
    assert_eq!(l.to_text(), r"\phi * \phi * \phi * \phi");
}

#[test]
fn terms_are_split_at_plus() {
    let l = parse(r"\phi^3 + \phi^4").unwrap();
    assert_eq!(l.interactions().len(), 2);
    assert_eq!(l.to_text(), r"\phi * \phi * \phi + \phi * \phi * \phi * \phi");
}

#[test]
fn white_space_is_ignored() {
    let l = parse("  \\phi   \\phi\t\\phi  ").unwrap();
    assert_eq!(l.interactions()[0].factors().len(), 3);
    let l = parse("\\phi \\bar \\psi \\psi  +  A\\bar\\psi\\psi").unwrap();
    assert_eq!(l.interactions().len(), 2);
    assert_eq!(l.fields().len(), 4);
    assert_eq!(l.fields()[3].kind(), FieldKind::RealVector);
}

#[test]
fn subscripts_and_other_superscripts_name_the_field() {
    let l = parse(r"\phi_1 \phi_1 \phi_1").unwrap();
    assert_eq!(l.fields().len(), 1);
    assert_eq!(l.fields()[0].name(), r"\phi_1");
    let l = parse(r"\phi^{a}\phi^{a}\phi^{a}").unwrap();
    assert_eq!(l.fields()[0].name(), r"\phi^{a}");
    let l = parse(r"\phi_{ab}^\dagger \phi_{ab}^\dagger \phi_{ab}^\dagger").unwrap();
    assert_eq!(l.fields()[0].name(), r"\phi_{ab}^\dagger");
}

#[test]
fn charged_kinds_take_bar() {
    let l = parse(r"\varphi\bar\varphi A + F \bar F \phi").unwrap();
    let kinds: Vec<FieldKind> = l.fields().iter().map(|f| f.kind()).collect();
    assert_eq!(
        kinds,
        vec![
            FieldKind::ComplexScalar(false),
            FieldKind::ComplexScalar(true),
            FieldKind::RealVector,
            FieldKind::ComplexVector(false),
            FieldKind::ComplexVector(true),
            FieldKind::RealScalar,
        ]
    );
}

#[test]
fn malformed_text_is_refused() {
    assert_eq!(parse(r"\phi\phi\phi + {").unwrap_err(), ParseError::Malformed);
    assert_eq!(parse(r"\chi\phi\phi").unwrap_err(), ParseError::Malformed);
    assert_eq!(parse("\\phi\\phi\\").unwrap_err(), ParseError::Malformed);
    assert_eq!(parse(r"\phi\phi\phi_{1").unwrap_err(), ParseError::Malformed);
    assert_eq!(parse(r"\phi\phi\bar").unwrap_err(), ParseError::Malformed);
    assert_eq!(parse(r"B\phi\phi").unwrap_err(), ParseError::Malformed);
}

#[test]
fn rule_violations_are_reported() {
    assert_eq!(parse(r"\phi\phi").unwrap_err(), ParseError::Rejected(LagrangianError::DegreeOutOfRange));
    assert_eq!(parse("").unwrap_err(), ParseError::Rejected(LagrangianError::DegreeOutOfRange));
    assert_eq!(parse(r"\phi^5").unwrap_err(), ParseError::Rejected(LagrangianError::DegreeOutOfRange));
    assert_eq!(parse(r"\psi\psi\phi").unwrap_err(), ParseError::Rejected(LagrangianError::ChargeViolation));
    assert_eq!(
        parse(r"\varphi_a \bar\varphi_b \phi").unwrap_err(),
        ParseError::Rejected(LagrangianError::UnpairedField)
    );
}

fn phi() -> feynman::field::Field {
    feynman::field::Field::new(FieldKind::RealScalar, r"\phi")
}

#[test]
fn read_terms_splits_factors() {
    let ts = feynman::notation::read_terms(r"\phi^4 + \phi\phi\phi").unwrap();
    assert_eq!(ts.len(), 2);
    assert_eq!(ts[0].len(), 4);
    assert_eq!(ts[1].len(), 3);
    assert!(ts[0][3] == phi());
    assert_eq!(feynman::notation::read_terms(r"\phi\chi").unwrap_err(), ParseError::Malformed);
}

#[test]
fn build_reports_first_bad_term() {
    assert_eq!(build(vec![vec![phi(), phi()]]).unwrap_err(), ParseError::Rejected(LagrangianError::DegreeOutOfRange));
    let psi = feynman::field::Field::new(FieldKind::Spinor(false), r"\psi");
    let bad = vec![psi.clone(), psi.clone(), phi()];
    let good = vec![phi(), phi(), phi()];
    assert_eq!(build(vec![good.clone(), bad.clone()]).unwrap_err(), ParseError::Rejected(LagrangianError::ChargeViolation));
    assert_eq!(
        build(vec![bad, vec![phi()]]).unwrap_err(),
        ParseError::Rejected(LagrangianError::ChargeViolation)
    );
    let s = feynman::field::Field::new(FieldKind::ComplexScalar(false), "a");
    let t = feynman::field::Field::new(FieldKind::ComplexScalar(true), "b");
    assert_eq!(build(vec![vec![s, t, phi()]]).unwrap_err(), ParseError::Rejected(LagrangianError::UnpairedField));
}

#[test]
fn build_keeps_terms_and_fields_in_order() {
    let psi = feynman::field::Field::new(FieldKind::Spinor(false), r"\psi");
    let l = build(vec![vec![phi(), psi.anti(), psi.clone()], vec![phi(), phi(), phi(), phi()]]).unwrap();
    assert_eq!(l.interactions().len(), 2);
    assert_eq!(l.interactions()[1].factors().len(), 4);
    assert_eq!(l.fields().len(), 3);
    assert!(l.fields()[1] == psi.anti());
    assert!(build(vec![]).is_ok());
}
