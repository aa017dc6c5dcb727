//! Interaction terms and the Lagrangian built from them, with the
//! conservation and pairing rules checked at construction.
use vstd::prelude::*;
use itertools::Itertools;
use crate::field::{Field, FieldKind, FieldView};

verus! {

/// Why a term or a theory was refused.
#[derive(Clone, Copy, PartialEq, Eq, Structural, Debug)]
pub enum LagrangianError {
    /// A term with fewer than three or more than four factors.
    DegreeOutOfRange,
    /// A term whose net charge of some conserved kind is not zero.
    ChargeViolation,
    /// A field whose conjugate does not occur in the theory.
    UnpairedField,
}

/// The three conserved charges.
#[derive(Clone, Copy, PartialEq, Eq, Structural, Debug)]
pub enum Charge {
    Scalar,
    Vector,
    Chirality,
}

/// The charge of kind `c` that one factor of kind `k` carries: +1 for a
/// particle, -1 for an antiparticle, 0 for a factor that does not carry it.
pub open spec fn charge_of(k: FieldKind, c: Charge) -> int {
    match (k, c) {
        (FieldKind::ComplexScalar(t), Charge::Scalar) => if t { -1 } else { 1 },
        (FieldKind::ComplexVector(t), Charge::Vector) => if t { -1 } else { 1 },
        (FieldKind::Spinor(t), Charge::Chirality) => if t { -1 } else { 1 },
        _ => 0,
    }
}

/// The net charge of kind `c` over a list of factors.
pub open spec fn net_charge(fs: Seq<FieldView>, c: Charge) -> int
    decreases fs.len(),
{
    if fs.len() == 0 {
        0
    } else {
        net_charge(fs.drop_last(), c) + charge_of(fs.last().kind, c)
    }
}

/// All three conserved charges sum to zero.
pub open spec fn conserves(fs: Seq<FieldView>) -> bool {
    net_charge(fs, Charge::Scalar) == 0 && net_charge(fs, Charge::Vector) == 0 && net_charge(
        fs,
        Charge::Chirality,
    ) == 0
}

/// A valid term: three or four factors, every charge conserved.
pub open spec fn valid_term(fs: Seq<FieldView>) -> bool {
    3 <= fs.len() <= 4 && conserves(fs)
}

/// The error that construction reports for a list of factors, if any; the
/// degree is checked first.
pub open spec fn term_error(fs: Seq<FieldView>) -> Option<LagrangianError> {
    if fs.len() < 3 || fs.len() > 4 {
        Some(LagrangianError::DegreeOutOfRange)
    } else if !conserves(fs) {
        Some(LagrangianError::ChargeViolation)
    } else {
        None
    }
}

proof fn lemma_net_charge_bound(fs: Seq<FieldView>, c: Charge)
    ensures
        -fs.len() <= net_charge(fs, c) <= fs.len(),
    decreases fs.len(),
{
    if fs.len() > 0 {
        lemma_net_charge_bound(fs.drop_last(), c);
    }
}

fn charge_exec(k: FieldKind, c: Charge) -> (r: i8)
    ensures
        r == charge_of(k, c),
{
    match (k, c) {
        (FieldKind::ComplexScalar(t), Charge::Scalar) => if t { -1 } else { 1 },
        (FieldKind::ComplexVector(t), Charge::Vector) => if t { -1 } else { 1 },
        (FieldKind::Spinor(t), Charge::Chirality) => if t { -1 } else { 1 },
        _ => 0,
    }
}

pub open spec fn views_of(fs: Seq<Field>) -> Seq<FieldView> {
    fs.map_values(|f: Field| f@)
}

/// One term of a Lagrangian: the product of three or four fields.
#[derive(Debug)]
pub struct Interaction {
    factors: Vec<Field>,
}

impl View for Interaction {
    type V = Seq<FieldView>;

    closed spec fn view(&self) -> Seq<FieldView> {
        views_of(self.factors@)
    }
}

impl Interaction {
    #[verifier::type_invariant]
    closed spec fn inv(&self) -> bool {
        valid_term(self@)
    }

    /// The net charge of kind `c` over the factors.
    fn net(factors: &Vec<Field>, c: Charge) -> (r: i8)
        requires
            factors@.len() <= 4,
        ensures
            r == net_charge(views_of(factors@), c),
    {
        let mut sum: i8 = 0;
        let mut i: usize = 0;
        while i < factors.len()
            invariant
                i <= factors@.len() <= 4,
                sum == net_charge(views_of(factors@).take(i as int), c),
            decreases factors@.len() - i,
        {
            proof {
                let t = views_of(factors@).take(i as int + 1);
                assert(t.drop_last() =~= views_of(factors@).take(i as int));
                lemma_net_charge_bound(views_of(factors@).take(i as int), c);
            }
            sum = sum + charge_exec(factors[i].kind(), c);
            i = i + 1;
        }
        assert(views_of(factors@).take(i as int) =~= views_of(factors@));
        sum
    }

    /// A term from its factors. Fails with `DegreeOutOfRange` unless there
    /// are three or four of them, then with `ChargeViolation` unless every
    /// conserved charge sums to zero.
    pub fn new(factors: Vec<Field>) -> (r: Result<Interaction, LagrangianError>)
        ensures
            term_error(views_of(factors@)) is None <==> r is Ok,
            r matches Ok(t) ==> t@ == views_of(factors@),
            r matches Err(e) ==> term_error(views_of(factors@)) == Some(e),
    {
        if factors.len() < 3 || factors.len() > 4 {
            return Err(LagrangianError::DegreeOutOfRange);
        }
        let s = Interaction::net(&factors, Charge::Scalar);
        let v = Interaction::net(&factors, Charge::Vector);
        let c = Interaction::net(&factors, Charge::Chirality);
        if s != 0 || v != 0 || c != 0 {
            return Err(LagrangianError::ChargeViolation);
        }
        Ok(Interaction { factors })
    }

    pub fn factors(&self) -> (r: &[Field])
        ensures
            views_of(r@) == self@,
            valid_term(self@),
    {
        proof {
            use_type_invariant(self);
        }
        self.factors.as_slice()
    }

    /// A copy of the term.
    pub fn copy(&self) -> (r: Interaction)
        ensures
            r@ == self@,
    {
        let mut fs: Vec<Field> = Vec::new();
        let mut i: usize = 0;
        while i < self.factors.len()
            invariant
                i <= self.factors@.len(),
                fs@.len() == i,
                forall|k: int| 0 <= k < i ==> (#[trigger] fs@[k])@ == self.factors@[k]@,
            decreases self.factors@.len() - i,
        {
            fs.push(self.factors[i].copy());
            i = i + 1;
        }
        proof {
            use_type_invariant(self);
            assert(views_of(fs@) =~= views_of(self.factors@));
        }
        Interaction { factors: fs }
    }

    /// The term as it is written: its factors joined by ` * `.
    pub fn to_text(&self) -> (r: String)
        ensures
            r@ == joined(self@.map_values(|f: FieldView| crate::field::field_text(f)), seq![' ', '*', ' ']),
    {
        let mut parts: Vec<String> = Vec::new();
        let mut i: usize = 0;
        while i < self.factors.len()
            invariant
                i <= self.factors@.len(),
                parts@.len() == i,
                forall|k: int| 0 <= k < i ==> (#[trigger] parts@[k])@ == crate::field::field_text(self.factors@[k]@),
            decreases self.factors@.len() - i,
        {
            parts.push(self.factors[i].to_text());
            i = i + 1;
        }
        assert(texts_of(parts@) =~= self@.map_values(|f: FieldView| crate::field::field_text(f)));
        proof {
            reveal_strlit(" * ");
            assert(" * "@ =~= seq![' ', '*', ' ']);
        }
        join_texts(&parts, " * ")
    }
}

impl Clone for Interaction {
    fn clone(&self) -> Interaction {
        self.copy()
    }
}

pub open spec fn texts_of(ps: Seq<String>) -> Seq<Seq<char>> {
    ps.map_values(|p: String| p@)
}

/// The parts with `sep` between each two.
pub open spec fn joined(parts: Seq<Seq<char>>, sep: Seq<char>) -> Seq<char>
    decreases parts.len(),
{
    if parts.len() == 0 {
        seq![]
    } else if parts.len() == 1 {
        parts[0]
    } else {
        joined(parts.drop_last(), sep) + sep + parts.last()
    }
}

/// Relies on `itertools::Itertools::join`: the items, each written as it is,
/// with `sep` between each two.
#[verifier::external_body]
fn join_texts(parts: &Vec<String>, sep: &str) -> (r: String)
    ensures
        r@ == joined(texts_of(parts@), sep@),
{
    parts.iter().join(sep)
}

/// The field list after the factors `new` are seen in order: each factor that
/// is not there yet is appended.
pub open spec fn add_fields(seen: Seq<FieldView>, new: Seq<FieldView>) -> Seq<FieldView>
    decreases new.len(),
{
    if new.len() == 0 {
        seen
    } else {
        let s = add_fields(seen, new.drop_last());
        if s.contains(new.last()) {
            s
        } else {
            s.push(new.last())
        }
    }
}

/// Every field has its conjugate among the fields.
pub open spec fn paired(fs: Seq<FieldView>) -> bool {
    forall|i: int| 0 <= i < fs.len() ==> fs.contains(#[trigger] fs[i].anti())
}

/// The distinct fields of the terms, in the order they first occur.
pub open spec fn collect_fields(ts: Seq<Seq<FieldView>>) -> Seq<FieldView>
    decreases ts.len(),
{
    if ts.len() == 0 {
        seq![]
    } else {
        add_fields(collect_fields(ts.drop_last()), ts.last())
    }
}

/// The mathematical value of a Lagrangian: its terms in order, and the
/// distinct fields in the order they first occur.
pub struct LagrangianView {
    pub interactions: Seq<Seq<FieldView>>,
    pub fields: Seq<FieldView>,
}

pub open spec fn terms_of(ts: Seq<Interaction>) -> Seq<Seq<FieldView>> {
    ts.map_values(|t: Interaction| t@)
}

/// Whether `f` is among `fields`.
fn contains_field(fields: &Vec<Field>, f: &Field) -> (r: bool)
    ensures
        r == views_of(fields@).contains(f@),
{
    let mut i: usize = 0;
    while i < fields.len()
        invariant
            i <= fields@.len(),
            forall|k: int| 0 <= k < i ==> fields@[k]@ != f@,
        decreases fields@.len() - i,
    {
        if fields[i].same(f) {
            assert(views_of(fields@)[i as int] == f@);
            return true;
        }
        i = i + 1;
    }
    assert(!views_of(fields@).contains(f@)) by {
        if views_of(fields@).contains(f@) {
            let k = choose|k: int| 0 <= k < views_of(fields@).len() && views_of(fields@)[k] == f@;
            assert(fields@[k]@ == f@);
        }
    }
    false
}

/// A Lagrangian under construction: terms are added one by one, and the
/// pairing of fields is not checked yet.
#[derive(Debug)]
pub struct UncheckedLagrangian {
    fields: Vec<Field>,
    interactions: Vec<Interaction>,
}

impl View for UncheckedLagrangian {
    type V = LagrangianView;

    closed spec fn view(&self) -> LagrangianView {
        LagrangianView { interactions: terms_of(self.interactions@), fields: views_of(self.fields@) }
    }
}

impl UncheckedLagrangian {
    /// The fields are the distinct fields of the terms, in the order they
    /// first occur.
    #[verifier::type_invariant]
    closed spec fn inv(&self) -> bool {
        self@.fields == collect_fields(self@.interactions)
    }

    pub fn new() -> (r: UncheckedLagrangian)
        ensures
            r@.interactions.len() == 0,
            r@.fields.len() == 0,
    {
        let fields: Vec<Field> = Vec::new();
        let interactions: Vec<Interaction> = Vec::new();
        assert(views_of(fields@) =~= collect_fields(terms_of(interactions@)));
        UncheckedLagrangian { fields, interactions }
    }

    /// The fields are the distinct fields of the terms, in the order they
    /// first occur.
    pub fn fields(&self) -> (r: &[Field])
        ensures
            views_of(r@) == self@.fields,
            self@.fields == collect_fields(self@.interactions),
    {
        proof {
            use_type_invariant(self);
        }
        self.fields.as_slice()
    }

    /// A copy of the Lagrangian.
    pub fn copy(&self) -> (r: UncheckedLagrangian)
        ensures
            r@ == self@,
    {
        proof {
            use_type_invariant(self);
        }
        let mut fs: Vec<Field> = Vec::new();
        let mut i: usize = 0;
        while i < self.fields.len()
            invariant
                i <= self.fields@.len(),
                fs@.len() == i,
                forall|k: int| 0 <= k < i ==> (#[trigger] fs@[k])@ == self.fields@[k]@,
            decreases self.fields@.len() - i,
        {
            fs.push(self.fields[i].copy());
            i = i + 1;
        }
        let mut ts: Vec<Interaction> = Vec::new();
        let mut i: usize = 0;
        while i < self.interactions.len()
            invariant
                i <= self.interactions@.len(),
                ts@.len() == i,
                forall|k: int| 0 <= k < i ==> (#[trigger] ts@[k])@ == self.interactions@[k]@,
            decreases self.interactions@.len() - i,
        {
            ts.push(self.interactions[i].copy());
            i = i + 1;
        }
        assert(views_of(fs@) =~= self@.fields);
        assert(terms_of(ts@) =~= self@.interactions);
        UncheckedLagrangian { fields: fs, interactions: ts }
    }

    /// Adds a term, and each of its fields that is not known yet.
    pub fn push(&mut self, term: Interaction)
        ensures
            final(self)@.interactions == old(self)@.interactions.push(term@),
            final(self)@.fields == add_fields(old(self)@.fields, term@),
    {
        proof {
            use_type_invariant(&*self);
        }
        let c = self.copy();
        let UncheckedLagrangian { mut fields, mut interactions } = c;
        let fs = term.factors();
        let n = fs.len();
        let mut i: usize = 0;
        while i < n
            invariant
                n == fs@.len(),
                i <= n,
                views_of(fs@) == term@,
                views_of(fields@) == add_fields(old(self)@.fields, term@.take(i as int)),
            decreases n - i,
        {
            assert(term@.take(i as int + 1).drop_last() =~= term@.take(i as int));
            assert(term@.take(i as int + 1).last() == fs@[i as int]@);
            if !contains_field(&fields, &fs[i]) {
                fields.push(fs[i].copy());
                assert(views_of(fields@) =~= add_fields(old(self)@.fields, term@.take(i as int + 1)));
            }
            i = i + 1;
        }
        assert(term@.take(n as int) =~= term@);
        let ghost before = terms_of(interactions@);
        interactions.push(term);
        assert(terms_of(interactions@) =~= before.push(term@));
        assert(terms_of(interactions@).drop_last() =~= before);
        *self = UncheckedLagrangian { fields, interactions };
    }
}

/// A Lagrangian in which every field has its conjugate.
#[derive(Debug)]
pub struct CheckedLagrangian {
    inner: UncheckedLagrangian,
}

impl View for CheckedLagrangian {
    type V = LagrangianView;

    closed spec fn view(&self) -> LagrangianView {
        self.inner@
    }
}

impl Clone for UncheckedLagrangian {
    fn clone(&self) -> UncheckedLagrangian {
        self.copy()
    }
}

impl Clone for CheckedLagrangian {
    fn clone(&self) -> CheckedLagrangian {
        proof {
            use_type_invariant(self);
        }
        CheckedLagrangian { inner: self.inner.copy() }
    }
}

impl CheckedLagrangian {
    /// Every field meets its conjugate.
    #[verifier::type_invariant]
    closed spec fn inv(&self) -> bool {
        paired(self.inner@.fields)
    }

    /// Checks that the conjugate of every field occurs in the theory; fails
    /// with `UnpairedField` otherwise.
    pub fn new(inner: UncheckedLagrangian) -> (r: Result<CheckedLagrangian, LagrangianError>)
        ensures
            r is Ok <==> paired(inner@.fields),
            r matches Ok(c) ==> c@ == inner@,
            r matches Err(e) ==> e == LagrangianError::UnpairedField,
            inner@.fields == collect_fields(inner@.interactions),
    {
        proof {
            use_type_invariant(&inner);
        }
        let mut i: usize = 0;
        while i < inner.fields.len()
            invariant
                i <= inner.fields@.len(),
                inner@.fields == collect_fields(inner@.interactions),
                forall|k: int| 0 <= k < i ==> views_of(inner.fields@).contains(#[trigger] views_of(inner.fields@)[k].anti()),
            decreases inner.fields@.len() - i,
        {
            let a = inner.fields[i].anti();
            if !contains_field(&inner.fields, &a) {
                assert(views_of(inner.fields@)[i as int].anti() == a@);
                return Err(LagrangianError::UnpairedField);
            }
            i = i + 1;
        }
        Ok(CheckedLagrangian { inner })
    }

    pub fn fields(&self) -> (r: &[Field])
        ensures
            views_of(r@) == self@.fields,
            paired(self@.fields),
            self@.fields == collect_fields(self@.interactions),
    {
        proof {
            use_type_invariant(self);
        }
        self.inner.fields()
    }

    pub fn interactions(&self) -> (r: &[Interaction])
        ensures
            terms_of(r@) == self@.interactions,
    {
        self.inner.interactions.as_slice()
    }

    /// The theory as it is written: its terms joined by ` + `.
    pub fn to_text(&self) -> (r: String)
        ensures
            r@ == joined(
                self@.interactions.map_values(
                    |t: Seq<FieldView>| joined(t.map_values(|f: FieldView| crate::field::field_text(f)), seq![' ', '*', ' ']),
                ),
                seq![' ', '+', ' '],
            ),
    {
        let ts = &self.inner.interactions;
        let mut parts: Vec<String> = Vec::new();
        let mut i: usize = 0;
        while i < ts.len()
            invariant
                i <= ts@.len(),
                parts@.len() == i,
                forall|k: int| 0 <= k < i ==> (#[trigger] parts@[k])@ == joined(ts@[k]@.map_values(|f: FieldView| crate::field::field_text(f)), seq![' ', '*', ' ']),
            decreases ts@.len() - i,
        {
            parts.push(ts[i].to_text());
            i = i + 1;
        }
        proof {
            reveal_strlit(" + ");
            assert(" + "@ =~= seq![' ', '+', ' ']);
            assert(texts_of(parts@) =~= self@.interactions.map_values(
                    |t: Seq<FieldView>| joined(t.map_values(|f: FieldView| crate::field::field_text(f)), seq![' ', '*', ' ']),
                ));
        }
        join_texts(&parts, " + ")
    }
}

} // verus!
