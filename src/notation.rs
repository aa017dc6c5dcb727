//! Reading a Lagrangian from its LaTeX-like notation, such as
//! `\phi\bar\psi\psi + \phi^4`: terms separated by `+`, each a product of
//! fields, a field written as `\phi`, `\varphi`, `A`, `F` or `\psi`, possibly
//! preceded by `\bar` and followed by a subscript and a superscript. A numeric
//! superscript repeats the factor. Text after `%` is ignored.
use vstd::prelude::*;
use vstd::string::*;
use crate::field::{Field, FieldKind, FieldView};
use crate::lagrangian::{
    CheckedLagrangian, Interaction, LagrangianError, UncheckedLagrangian, paired, views_of, term_error, collect_fields,
};

verus! {

/// Why a Lagrangian could not be read.
#[derive(Clone, Copy, PartialEq, Eq, Structural, Debug)]
pub enum ParseError {
    /// The text does not follow the notation.
    Malformed,
    /// A term or the theory breaks a rule of the Lagrangian.
    Rejected(LagrangianError),
}

/// Whether `c` has the Unicode `White_Space` property, the property that
/// `char::is_whitespace` tests.
pub open spec fn is_space(c: char) -> bool {
    let u = c as u32;
    (0x09 <= u && u <= 0x0d) || u == 0x20 || u == 0x85 || u == 0xa0 || u == 0x1680 || (0x2000 <= u && u
        <= 0x200a) || u == 0x2028 || u == 0x2029 || u == 0x202f || u == 0x205f || u == 0x3000
}

fn space(c: char) -> (r: bool)
    ensures
        r == is_space(c),
{
    let u = c as u32;
    (0x09 <= u && u <= 0x0d) || u == 0x20 || u == 0x85 || u == 0xa0 || u == 0x1680 || (0x2000 <= u && u
        <= 0x200a) || u == 0x2028 || u == 0x2029 || u == 0x202f || u == 0x205f || u == 0x3000
}

pub open spec fn is_letter(c: char) -> bool {
    ('a' <= c && c <= 'z') || ('A' <= c && c <= 'Z')
}

fn letter(c: char) -> (r: bool)
    ensures
        r == is_letter(c),
{
    ('a' <= c && c <= 'z') || ('A' <= c && c <= 'Z')
}

/// The value of a decimal numeral that fits in a `u8`, with an optional
/// leading `+`, as `u8`'s `FromStr` reads it; `None` for anything else.
pub open spec fn small_number(s: Seq<char>) -> Option<u8> {
    if unsigned_part(s).len() > 0 && all_digits(unsigned_part(s)) && numeral(unsigned_part(s)) <= 255 {
        Some(numeral(unsigned_part(s)) as u8)
    } else {
        None
    }
}

/// The text without its leading `+`, if it has one.
pub open spec fn unsigned_part(s: Seq<char>) -> Seq<char> {
    if s.len() > 0 && s[0] == '+' {
        s.drop_first()
    } else {
        s
    }
}

pub open spec fn all_digits(d: Seq<char>) -> bool {
    forall|k: int| 0 <= k < d.len() ==> '0' <= #[trigger] d[k] <= '9'
}

/// The value of a string of decimal digits.
pub open spec fn numeral(d: Seq<char>) -> nat
    decreases d.len(),
{
    if d.len() == 0 {
        0
    } else {
        numeral(d.drop_last()) * 10 + ((d.last() as u32 - '0' as u32) as nat)
    }
}

fn read_small_number(s: &Vec<char>) -> (r: Option<u8>)
    ensures
        r == small_number(s@),
{
    let start: usize = if s.len() > 0 && s[0] == '+' { 1 } else { 0 };
    let ghost d = unsigned_part(s@);
    assert(d =~= s@.subrange(start as int, s@.len() as int));
    if start >= s.len() {
        return None;
    }
    let mut v: u32 = 0;
    let mut i: usize = start;
    while i < s.len()
        invariant
            start <= i <= s@.len(),
            d == unsigned_part(s@),
            d =~= s@.subrange(start as int, s@.len() as int),
            forall|k: int| start <= k < i ==> '0' <= #[trigger] s@[k] <= '9',
            v == numeral(s@.subrange(start as int, i as int)),
            v <= 255,
        decreases s@.len() - i,
    {
        let c = s[i];
        if !('0' <= c && c <= '9') {
            assert(d[i - start] == c);
            assert(!all_digits(d));
            return None;
        }
        let ghost p = s@.subrange(start as int, i as int + 1);
        assert(p.drop_last() =~= s@.subrange(start as int, i as int));
        let nv = v * 10 + (c as u32 - '0' as u32);
        if nv > 255 {
            proof {
                assert(d.take((i + 1 - start) as int) =~= p);
                lemma_numeral_prefix(d, (i + 1 - start) as nat);
                assert(!all_digits(d) || numeral(d) > 255);
            }
            return None;
        }
        v = nv;
        i = i + 1;
    }
    assert(s@.subrange(start as int, i as int) =~= d);
    Some(v as u8)
}

/// A numeral is at least the numeral of any prefix of it.
proof fn lemma_numeral_prefix(d: Seq<char>, m: nat)
    requires
        m <= d.len(),
        forall|k: int| 0 <= k < m ==> '0' <= #[trigger] d[k] <= '9',
    ensures
        (forall|k: int| 0 <= k < d.len() ==> '0' <= #[trigger] d[k] <= '9') ==> numeral(d) >= numeral(d.take(m as int)),
    decreases d.len(),
{
    if m < d.len() {
        assert(d.drop_last().take(m as int) =~= d.take(m as int));
        lemma_numeral_prefix(d.drop_last(), m);
    } else {
        assert(d.take(m as int) =~= d);
    }
}

/// Relies on `String`'s `FromIterator<char>`: the characters in order.
#[verifier::external_body]
pub(crate) fn text_of(cs: &Vec<char>) -> (r: String)
    ensures
        r@ == cs@,
{
    cs.iter().collect()
}

/// The characters of `s`.
fn chars_of(s: &str) -> (r: Vec<char>)
    ensures
        r@ == s@,
{
    let n = s.unicode_len();
    let mut r: Vec<char> = Vec::new();
    let mut i: usize = 0;
    while i < n
        invariant
            n == s@.len(),
            i <= n,
            r@ =~= s@.take(i as int),
        decreases n - i,
    {
        r.push(s.get_char(i));
        i = i + 1;
    }
    assert(s@.take(i as int) =~= s@);
    r
}

/// Whether `t` spells the word `w`.
fn spells(t: &Vec<char>, w: &str) -> (r: bool)
    ensures
        r == (t@ == w@),
{
    let n = w.unicode_len();
    if t.len() != n {
        return false;
    }
    let mut i: usize = 0;
    while i < n
        invariant
            n == w@.len(),
            n == t@.len(),
            i <= n,
            forall|k: int| 0 <= k < i ==> t@[k] == w@[k],
        decreases n - i,
    {
        if t[i] != w.get_char(i) {
            return false;
        }
        i = i + 1;
    }
    assert(t@ =~= w@);
    true
}

/// The position of the first character at or after `pos` that is not white
/// space.
fn skip_space(cs: &Vec<char>, pos: usize) -> (r: usize)
    requires
        pos <= cs@.len(),
    ensures
        pos <= r <= cs@.len(),
        forall|k: int| pos <= k < r ==> is_space(#[trigger] cs@[k]),
        r == cs@.len() || !is_space(cs@[r as int]),
{
    let mut i = pos;
    while i < cs.len() && space(cs[i])
        invariant
            pos <= i <= cs@.len(),
            forall|k: int| pos <= k < i ==> is_space(#[trigger] cs@[k]),
        decreases cs@.len() - i,
    {
        i = i + 1;
    }
    i
}

/// The command that follows a backslash, the backslash being just before
/// `pos`: a run of letters, or a single other character. Returns the command
/// with its backslash and the position after it; `None` at the end of the
/// text.
fn read_command(cs: &Vec<char>, pos: usize) -> (r: Option<(Vec<char>, usize)>)
    requires
        pos <= cs@.len(),
    ensures
        r is None <==> pos == cs@.len(),
        r matches Some((t, e)) ==> pos < e <= cs@.len() && t@.len() == e - pos + 1 && t@[0] == '\\',
{
    if pos >= cs.len() {
        return None;
    }
    let mut t: Vec<char> = Vec::new();
    t.push('\\');
    if !letter(cs[pos]) {
        t.push(cs[pos]);
        return Some((t, pos + 1));
    }
    let mut i = pos;
    while i < cs.len() && letter(cs[i])
        invariant
            pos <= i <= cs@.len(),
            t@.len() == i - pos + 1,
            t@[0] == '\\',
        decreases cs@.len() - i,
    {
        t.push(cs[i]);
        i = i + 1;
    }
    Some((t, i))
}

/// The next factor token at or after `pos`, and the position after it:
/// `None` at the end of the text or of the term (a `+`, which is left in
/// place). A brace, or a backslash that ends the text, is malformed.
fn next_token(cs: &Vec<char>, pos: usize) -> (r: Result<(Option<Vec<char>>, usize), ParseError>)
    requires
        pos <= cs@.len(),
    ensures
        r matches Ok((t, e)) ==> pos <= e <= cs@.len() && (t is Some ==> pos < e),
{
    let p = skip_space(cs, pos);
    if p >= cs.len() {
        return Ok((None, p));
    }
    let c = cs[p];
    if c == '{' || c == '}' {
        Err(ParseError::Malformed)
    } else if c == '+' {
        Ok((None, p))
    } else if c == '\\' {
        match read_command(cs, p + 1) {
            Some((t, e)) => Ok((Some(t), e)),
            None => Err(ParseError::Malformed),
        }
    } else {
        let mut t: Vec<char> = Vec::new();
        t.push(c);
        Ok((Some(t), p + 1))
    }
}

/// A subscript or superscript at or after `pos`: a command, a braced group
/// kept with its braces, or a single character. Returns it and the position
/// after it.
fn read_block(cs: &Vec<char>, pos: usize) -> (r: Result<(Vec<char>, usize), ParseError>)
    requires
        pos <= cs@.len(),
    ensures
        r matches Ok((_, e)) ==> pos < e <= cs@.len(),
{
    let p = skip_space(cs, pos);
    if p >= cs.len() || cs[p] == '}' {
        return Err(ParseError::Malformed);
    }
    let c = cs[p];
    if c == '\\' {
        match read_command(cs, p + 1) {
            Some((t, e)) => Ok((t, e)),
            None => Err(ParseError::Malformed),
        }
    } else if c == '{' {
        let mut t: Vec<char> = Vec::new();
        t.push('{');
        let mut depth: usize = 1;
        let mut i = p + 1;
        while i < cs.len() && depth > 0
            invariant
                p < i <= cs@.len(),
                depth <= i - p,
            decreases cs@.len() - i,
        {
            let d = cs[i];
            if d == '{' {
                depth = depth + 1;
            } else if d == '}' {
                depth = depth - 1;
            }
            t.push(d);
            i = i + 1;
        }
        if depth != 0 {
            return Err(ParseError::Malformed);
        }
        Ok((t, i))
    } else {
        let mut t: Vec<char> = Vec::new();
        t.push(c);
        Ok((t, p + 1))
    }
}

/// The kind that a field token names, the antiparticle flag applying to the
/// charged kinds.
fn kind_of(t: &Vec<char>, bar: bool) -> (r: Option<FieldKind>) {
    if spells(t, "\\phi") {
        Some(FieldKind::RealScalar)
    } else if spells(t, "\\varphi") {
        Some(FieldKind::ComplexScalar(bar))
    } else if spells(t, "A") {
        Some(FieldKind::RealVector)
    } else if spells(t, "F") {
        Some(FieldKind::ComplexVector(bar))
    } else if spells(t, "\\psi") {
        Some(FieldKind::Spinor(bar))
    } else {
        None
    }
}

/// The factors of one term, read from `pos` up to the end of the text or the
/// next `+`, and the position where reading stopped.
fn read_term(cs: &Vec<char>, pos: usize) -> (r: Result<(Vec<Field>, usize), ParseError>)
    requires
        pos <= cs@.len(),
    ensures
        r matches Ok((_, e)) ==> pos <= e <= cs@.len(),
{
    let mut factors: Vec<Field> = Vec::new();
    let mut p = pos;
    loop
        invariant
            pos <= p <= cs@.len(),
        decreases cs@.len() - p,
    {
        let (tok, e) = match next_token(cs, p) {
            Ok((Some(t), e)) => (t, e),
            Ok((None, e)) => {
                return Ok((factors, e));
            },
            Err(x) => {
                return Err(x);
            },
        };
        let (token, bar, e) = if spells(&tok, "\\bar") {
            match next_token(cs, e) {
                Ok((Some(t), e2)) => (t, true, e2),
                Ok((None, _)) => {
                    return Err(ParseError::Malformed);
                },
                Err(x) => {
                    return Err(x);
                },
            }
        } else {
            (tok, false, e)
        };
        let mut q = skip_space(cs, e);
        let mut sub: Option<Vec<char>> = None;
        if q < cs.len() && cs[q] == '_' {
            match read_block(cs, q + 1) {
                Ok((b, e2)) => {
                    sub = Some(b);
                    q = e2;
                },
                Err(x) => {
                    return Err(x);
                },
            }
        }
        q = skip_space(cs, q);
        let mut sup: Option<Vec<char>> = None;
        if q < cs.len() && cs[q] == '^' {
            match read_block(cs, q + 1) {
                Ok((b, e2)) => {
                    sup = Some(b);
                    q = e2;
                },
                Err(x) => {
                    return Err(x);
                },
            }
        }
        let count: u8 = match &sup {
            Some(b) => match read_small_number(b) {
                Some(v) => {
                    sup = None;
                    v
                },
                None => 1,
            },
            None => 1,
        };
        let kind = match kind_of(&token, bar) {
            Some(k) => k,
            None => {
                return Err(ParseError::Malformed);
            },
        };
        let mut name = token;
        if let Some(b) = sub {
            name.push('_');
            let mut k: usize = 0;
            while k < b.len()
                invariant
                    k <= b@.len(),
                decreases b@.len() - k,
            {
                name.push(b[k]);
                k = k + 1;
            }
        }
        if let Some(b) = sup {
            name.push('^');
            let mut k: usize = 0;
            while k < b.len()
                invariant
                    k <= b@.len(),
                decreases b@.len() - k,
            {
                name.push(b[k]);
                k = k + 1;
            }
        }
        let name = text_of(&name);
        let mut c: u8 = 0;
        while c < count
            invariant
                c <= count,
            decreases count - c,
        {
            factors.push(Field::new(kind, name.as_str()));
            c = c + 1;
        }
        p = q;
    }
}

/// The fields of each term, as the notation writes them.
pub open spec fn term_views(ts: Seq<Vec<Field>>) -> Seq<Seq<FieldView>> {
    ts.map_values(|t: Vec<Field>| views_of(t@))
}

/// The rule that the first term to break one breaks, if any.
pub open spec fn first_term_error(ts: Seq<Seq<FieldView>>) -> Option<LagrangianError>
    decreases ts.len(),
{
    if ts.len() == 0 {
        None
    } else {
        match first_term_error(ts.drop_last()) {
            Some(e) => Some(e),
            None => term_error(ts.last()),
        }
    }
}

/// The error that building a theory from these terms reports, if any: the
/// first term that breaks a rule, else a field without its conjugate.
pub open spec fn theory_error(ts: Seq<Seq<FieldView>>) -> Option<LagrangianError> {
    match first_term_error(ts) {
        Some(e) => Some(e),
        None => if paired(collect_fields(ts)) { None } else { Some(LagrangianError::UnpairedField) },
    }
}

fn copy_fields(v: &Vec<Field>) -> (r: Vec<Field>)
    ensures
        views_of(r@) == views_of(v@),
{
    let mut r: Vec<Field> = Vec::new();
    let mut i: usize = 0;
    while i < v.len()
        invariant
            i <= v@.len(),
            r@.len() == i,
            forall|k: int| 0 <= k < i ==> (#[trigger] r@[k])@ == v@[k]@,
        decreases v@.len() - i,
    {
        r.push(v[i].copy());
        i = i + 1;
    }
    assert(views_of(r@) =~= views_of(v@));
    r
}

/// The terms written in `text`, each as its list of factors; `Malformed`
/// where the text does not follow the notation.
pub fn read_terms(text: &str) -> (r: Result<Vec<Vec<Field>>, ParseError>)
    ensures
        r matches Err(e) ==> e == ParseError::Malformed,
{
    let cs = chars_of(text);
    let mut terms: Vec<Vec<Field>> = Vec::new();
    let mut p: usize = 0;
    let mut first = true;
    loop
        invariant
            p <= cs@.len(),
        decreases cs@.len() - p, if first { 1int } else { 0int },
    {
        if first {
            first = false;
        } else {
            p = skip_space(&cs, p);
            if p >= cs.len() || cs[p] == '%' {
                break;
            }
            if cs[p] != '+' {
                return Err(ParseError::Malformed);
            }
            p = p + 1;
        }
        match read_term(&cs, p) {
            Ok((factors, e)) => {
                terms.push(factors);
                p = e;
            },
            Err(_) => {
                return Err(ParseError::Malformed);
            },
        }
    }
    Ok(terms)
}

/// The theory made of the given terms, in order: fails with the rule that
/// the first bad term breaks, else with `UnpairedField` when a field lacks
/// its conjugate.
pub fn build(terms: Vec<Vec<Field>>) -> (r: Result<CheckedLagrangian, ParseError>)
    ensures
        r is Ok <==> theory_error(term_views(terms@)) is None,
        r matches Ok(l) ==> l@.interactions == term_views(terms@) && l@.fields == collect_fields(
            term_views(terms@),
        ) && paired(l@.fields),
        r matches Err(e) ==> e == ParseError::Rejected(theory_error(term_views(terms@))->Some_0),
{
    let ghost ts = term_views(terms@);
    let mut theory = UncheckedLagrangian::new();
    let mut i: usize = 0;
    while i < terms.len()
        invariant
            i <= terms@.len(),
            ts == term_views(terms@),
            theory@.interactions == ts.take(i as int),
            first_term_error(ts.take(i as int)) is None,
        decreases terms@.len() - i,
    {
        assert(ts.take(i as int + 1).drop_last() =~= ts.take(i as int));
        match Interaction::new(copy_fields(&terms[i])) {
            Ok(t) => {
                theory.push(t);
                assert(theory@.interactions =~= ts.take(i as int + 1));
            },
            Err(x) => {
                assert(first_term_error(ts.take(i as int + 1)) == Some(x));
                proof {
                    lemma_first_error_prefix(ts, i as int + 1);
                }
                return Err(ParseError::Rejected(x));
            },
        }
        i = i + 1;
    }
    assert(ts.take(i as int) =~= ts);
    match CheckedLagrangian::new(theory) {
        Ok(l) => Ok(l),
        Err(x) => Err(ParseError::Rejected(x)),
    }
}

proof fn lemma_first_error_prefix(ts: Seq<Seq<FieldView>>, m: int)
    requires
        0 <= m <= ts.len(),
        first_term_error(ts.take(m)) is Some,
    ensures
        first_term_error(ts) == first_term_error(ts.take(m)),
    decreases ts.len() - m,
{
    if m < ts.len() {
        assert(ts.take(m + 1).drop_last() =~= ts.take(m));
        lemma_first_error_prefix(ts, m + 1);
    } else {
        assert(ts.take(m) =~= ts);
    }
}

/// Reads a Lagrangian from its notation: `Malformed` where the text does
/// not follow it, else the theory that `build` makes of its terms.
pub fn parse(text: &str) -> (r: Result<CheckedLagrangian, ParseError>)
    ensures
        r matches Ok(l) ==> paired(l@.fields) && l@.fields == collect_fields(l@.interactions),
{
    match read_terms(text) {
        Ok(terms) => build(terms),
        Err(e) => Err(e),
    }
}

} // verus!
