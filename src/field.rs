//! Field kinds, fields and the particle / antiparticle conjugation.
use vstd::prelude::*;
use vstd::string::*;

verus! {

/// The kind of a quantum field. The boolean of a charged kind tells the
/// antiparticle (`true`) from the particle (`false`).
#[derive(Clone, Copy, PartialEq, Eq, Structural, Hash, Debug)]
pub enum FieldKind {
    RealScalar,
    ComplexScalar(bool),
    RealVector,
    ComplexVector(bool),
    Spinor(bool),
}

impl FieldKind {
    /// The conjugate kind: self-conjugate kinds map to themselves, the others
    /// flip their charge.
    pub open spec fn anti_spec(self) -> FieldKind {
        match self {
            FieldKind::RealScalar => FieldKind::RealScalar,
            FieldKind::ComplexScalar(t) => FieldKind::ComplexScalar(!t),
            FieldKind::RealVector => FieldKind::RealVector,
            FieldKind::ComplexVector(t) => FieldKind::ComplexVector(!t),
            FieldKind::Spinor(t) => FieldKind::Spinor(!t),
        }
    }

    /// A kind that is its own conjugate.
    pub open spec fn is_self_conjugate(self) -> bool {
        self is RealScalar || self is RealVector
    }

    pub fn anti(&self) -> (r: FieldKind)
        ensures
            r == self.anti_spec(),
    {
        match self {
            FieldKind::RealScalar => FieldKind::RealScalar,
            FieldKind::ComplexScalar(t) => FieldKind::ComplexScalar(!*t),
            FieldKind::RealVector => FieldKind::RealVector,
            FieldKind::ComplexVector(t) => FieldKind::ComplexVector(!*t),
            FieldKind::Spinor(t) => FieldKind::Spinor(!*t),
        }
    }
}

/// Conjugation is an involution: the conjugate of the conjugate of a kind is
/// the kind itself.
pub proof fn lemma_anti_involution(k: FieldKind)
    ensures
        k.anti_spec().anti_spec() == k,
{
}

/// A kind equals its conjugate exactly when it is self-conjugate.
pub proof fn lemma_anti_fixed_points(k: FieldKind)
    ensures
        (k.anti_spec() == k) <==> k.is_self_conjugate(),
{
}

/// The mathematical value of a field: its kind and its name.
pub struct FieldView {
    pub kind: FieldKind,
    pub name: Seq<char>,
}

impl FieldView {
    pub open spec fn anti(self) -> FieldView {
        FieldView { kind: self.kind.anti_spec(), name: self.name }
    }
}

/// A charged kind in its antiparticle state.
pub open spec fn is_barred(k: FieldKind) -> bool {
    match k {
        FieldKind::ComplexScalar(t) => t,
        FieldKind::ComplexVector(t) => t,
        FieldKind::Spinor(t) => t,
        _ => false,
    }
}

/// How a field is written: its name, preceded by `\bar ` for an
/// antiparticle.
pub open spec fn field_text(f: FieldView) -> Seq<char> {
    if is_barred(f.kind) {
        seq!['\\', 'b', 'a', 'r', ' '] + f.name
    } else {
        f.name
    }
}

/// A named field of a given kind. Two fields are equal when both kind and
/// name agree.
#[derive(Clone, Hash, Debug)]
pub struct Field {
    kind: FieldKind,
    name: String,
}

impl View for Field {
    type V = FieldView;

    closed spec fn view(&self) -> FieldView {
        FieldView { kind: self.kind, name: self.name@ }
    }
}

fn is_barred_exec(k: FieldKind) -> (r: bool)
    ensures
        r == is_barred(k),
{
    match k {
        FieldKind::ComplexScalar(t) => t,
        FieldKind::ComplexVector(t) => t,
        FieldKind::Spinor(t) => t,
        _ => false,
    }
}

impl PartialEq for Field {
    fn eq(&self, other: &Field) -> (r: bool) {
        self.kind == other.kind && self.name == other.name
    }
}

impl vstd::std_specs::cmp::PartialEqSpecImpl for Field {
    open spec fn obeys_eq_spec() -> bool {
        true
    }

    open spec fn eq_spec(&self, other: &Field) -> bool {
        self@ == other@
    }
}

impl Eq for Field {
}

impl Field {
    pub fn new(kind: FieldKind, name: &str) -> (r: Field)
        ensures
            r@ == (FieldView { kind, name: name@ }),
    {
        Field { kind, name: name.to_string() }
    }

    pub fn kind(&self) -> (r: FieldKind)
        ensures
            r == self@.kind,
    {
        self.kind
    }

    /// The name of the field, as text.
    pub fn name(&self) -> (r: &str)
        ensures
            r@ == self@.name,
    {
        self.name.as_str()
    }

    /// The conjugate field: same name, conjugate kind.
    pub fn anti(&self) -> (r: Field)
        ensures
            r@ == self@.anti(),
    {
        Field { kind: self.kind.anti(), name: self.name.clone() }
    }

    /// A copy of the field.
    pub fn copy(&self) -> (r: Field)
        ensures
            r@ == self@,
    {
        Field { kind: self.kind, name: self.name.clone() }
    }

    /// The field as it is written in a Lagrangian: the name, preceded by
    /// `\bar ` for an antiparticle.
    pub fn to_text(&self) -> (r: String)
        ensures
            r@ == field_text(self@),
    {
        let mut r = String::new();
        if is_barred_exec(self.kind) {
            r.append("\\bar ");
        }
        r.append(self.name.as_str());
        proof {
            reveal_strlit("\\bar ");
        }
        r
    }

    /// Structural equality of two fields.
    pub fn same(&self, other: &Field) -> (r: bool)
        ensures
            r == (self@ == other@),
    {
        self.kind == other.kind && self.name == other.name
    }
}

} // verus!
