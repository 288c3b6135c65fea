//! Units: parsing unit texts into dimensions and scales, and the units of
//! products, quotients, powers and roots.
use crate::text;
use crate::text::{push_i64, starts_with};
use crate::unitlaw;
use crate::unittable;
use crate::unittable::{lookup, prefix, Dims, UnitDef};
use vstd::prelude::*;

verus! {

/// Whether a character outside ASCII has Unicode's Alphabetic property.
pub uninterp spec fn alphabetic(c: char) -> bool;

/// A letter: one of ASCII's, or alphabetic.
pub open spec fn letter(c: char) -> bool {
    if (c as u32) < 128 {
        'a' <= c <= 'z' || 'A' <= c <= 'Z'
    } else {
        alphabetic(c)
    }
}

/// A blank: a character with Unicode's White_Space property. Of ASCII these
/// are the space, tab, line feed, vertical tab, form feed and carriage return.
pub open spec fn blank(c: char) -> bool {
    ||| 9 <= c as u32 <= 13
    ||| c as u32 == 0x20
    ||| c as u32 == 0x85
    ||| c as u32 == 0xa0
    ||| c as u32 == 0x1680
    ||| 0x2000 <= c as u32 <= 0x200a
    ||| c as u32 == 0x2028
    ||| c as u32 == 0x2029
    ||| c as u32 == 0x202f
    ||| c as u32 == 0x205f
    ||| c as u32 == 0x3000
}

/// `char::is_alphabetic`: whether a character has the Alphabetic property,
/// which of ASCII the 52 letters have.
#[verifier::external_body]
fn is_letter(c: char) -> (r: bool)
    ensures
        (c as u32) < 128 ==> r == ('a' <= c <= 'z' || 'A' <= c <= 'Z'),
        (c as u32) >= 128 ==> r == alphabetic(c),
{
    c.is_alphabetic()
}

fn is_blank(c: char) -> (r: bool)
    ensures
        r == blank(c),
{
    let code: u32 = c as u32;
    (9 <= code && code <= 13) || code == 0x20 || code == 0x85 || code == 0xa0 || code == 0x1680 || (
    0x2000 <= code && code <= 0x200a) || code == 0x2028 || code == 0x2029 || code == 0x202f || code
        == 0x205f || code == 0x3000
}

/// How a scale to SI base units is made up. Factors are the bit patterns of
/// IEEE doubles.
#[derive(Debug)]
pub enum Scale {
    One,
    /// A unit of the table, times the factor of a prefix where it has one.
    Atom(u64, Option<u64>),
    Product(Box<Scale>, Box<Scale>),
    Quotient(Box<Scale>, Box<Scale>),
    Power(Box<Scale>, i32),
    Root(Box<Scale>, i32),
}

impl Scale {
    /// A copy of the scale.
    pub fn copy(&self) -> (r: Scale)
        ensures
            r == *self,
        decreases self,
    {
        match self {
            Scale::One => Scale::One,
            Scale::Atom(u, p) => Scale::Atom(*u, *p),
            Scale::Product(a, b) => Scale::Product(Box::new(a.copy()), Box::new(b.copy())),
            Scale::Quotient(a, b) => Scale::Quotient(Box::new(a.copy()), Box::new(b.copy())),
            Scale::Power(a, n) => Scale::Power(Box::new(a.copy()), *n),
            Scale::Root(a, n) => Scale::Root(Box::new(a.copy()), *n),
        }
    }
}

/// A parsed unit: how it is displayed, its SI dimensions, and its scale to SI
/// base units.
#[derive(Debug)]
pub struct Unit {
    pub display: String,
    pub dims: Dims,
    pub scale: Scale,
}

/// What a [`Unit`] says.
pub struct UnitModel {
    pub display: Seq<char>,
    pub dims: Dims,
    pub scale: Scale,
}

impl View for Unit {
    type V = UnitModel;

    open spec fn view(&self) -> UnitModel {
        UnitModel { display: self.display@, dims: self.dims, scale: self.scale }
    }
}

/// Why a text is no unit.
#[derive(Debug)]
pub enum UnitError {
    /// Something is left over after the unit.
    Invalid(String),
    Unbalanced,
    /// A unit name was expected, and this found.
    ExpectedName(Option<char>),
    Unknown(String),
    /// An exponent is out of range.
    Exponent,
}

/// What a [`UnitError`] says.
pub enum UnitFault {
    Invalid(Seq<char>),
    Unbalanced,
    ExpectedName(Option<char>),
    Unknown(Seq<char>),
    Exponent,
}

impl View for UnitError {
    type V = UnitFault;

    open spec fn view(&self) -> UnitFault {
        match *self {
            UnitError::Invalid(s) => UnitFault::Invalid(s@),
            UnitError::Unbalanced => UnitFault::Unbalanced,
            UnitError::ExpectedName(c) => UnitFault::ExpectedName(c),
            UnitError::Unknown(s) => UnitFault::Unknown(s@),
            UnitError::Exponent => UnitFault::Exponent,
        }
    }
}

/// Whether an integer is an `i32`.
pub open spec fn small(i: int) -> bool {
    i32::MIN <= i <= i32::MAX
}

/// Dimensions of these exponents, where they are in range.
pub open spec fn dims_of(
    m: int,
    kg: int,
    s: int,
    a: int,
    k: int,
    mol: int,
    cd: int,
    rad: int,
) -> Option<Dims> {
    if small(m) && small(kg) && small(s) && small(a) && small(k) && small(mol) && small(cd) && small(
        rad,
    ) {
        Some(unittable::unit(m, kg, s, a, k, mol, cd, rad, 0).dims)
    } else {
        None
    }
}

/// The dimensions of a product.
pub open spec fn dims_added(x: Dims, y: Dims) -> Option<Dims> {
    dims_of(
        x.m + y.m,
        x.kg + y.kg,
        x.s + y.s,
        x.a + y.a,
        x.k + y.k,
        x.mol + y.mol,
        x.cd + y.cd,
        x.rad + y.rad,
    )
}

/// The dimensions of a quotient.
pub open spec fn dims_subtracted(x: Dims, y: Dims) -> Option<Dims> {
    dims_of(
        x.m - y.m,
        x.kg - y.kg,
        x.s - y.s,
        x.a - y.a,
        x.k - y.k,
        x.mol - y.mol,
        x.cd - y.cd,
        x.rad - y.rad,
    )
}

/// The dimensions of a power.
pub open spec fn dims_scaled(x: Dims, e: int) -> Option<Dims> {
    dims_of(x.m * e, x.kg * e, x.s * e, x.a * e, x.k * e, x.mol * e, x.cd * e, x.rad * e)
}

/// The dimensions of a root, with exponents that are rounded so that what is
/// left over is not negative.
pub open spec fn dims_divided(x: Dims, n: int) -> Option<Dims> {
    dims_of(
        x.m as int / n,
        x.kg as int / n,
        x.s as int / n,
        x.a as int / n,
        x.k as int / n,
        x.mol as int / n,
        x.cd as int / n,
        x.rad as int / n,
    )
}

pub open spec fn no_dims() -> Dims {
    unittable::unit(0, 0, 0, 0, 0, 0, 0, 0, 0).dims
}

fn new_dims(
    m: i64,
    kg: i64,
    s: i64,
    a: i64,
    k: i64,
    mol: i64,
    cd: i64,
    rad: i64,
) -> (r: Option<Dims>)
    ensures
        r == dims_of(
            m as int,
            kg as int,
            s as int,
            a as int,
            k as int,
            mol as int,
            cd as int,
            rad as int,
        ),
{
    if in_range(m) && in_range(kg) && in_range(s) && in_range(a) && in_range(k) && in_range(mol)
        && in_range(cd) && in_range(rad) {
        Some(
            Dims {
                m: m as i32,
                kg: kg as i32,
                s: s as i32,
                a: a as i32,
                k: k as i32,
                mol: mol as i32,
                cd: cd as i32,
                rad: rad as i32,
            },
        )
    } else {
        None
    }
}

fn in_range(i: i64) -> (r: bool)
    ensures
        r == small(i as int),
{
    -0x8000_0000 <= i && i <= 0x7fff_ffff
}

/// The dimensions of a product, where their exponents are in range.
pub fn add_dims(x: Dims, y: Dims) -> (r: Option<Dims>)
    ensures
        r == dims_added(x, y),
{
    new_dims(
        x.m as i64 + y.m as i64,
        x.kg as i64 + y.kg as i64,
        x.s as i64 + y.s as i64,
        x.a as i64 + y.a as i64,
        x.k as i64 + y.k as i64,
        x.mol as i64 + y.mol as i64,
        x.cd as i64 + y.cd as i64,
        x.rad as i64 + y.rad as i64,
    )
}

/// The dimensions of a quotient, where their exponents are in range.
pub fn sub_dims(x: Dims, y: Dims) -> (r: Option<Dims>)
    ensures
        r == dims_subtracted(x, y),
{
    new_dims(
        x.m as i64 - y.m as i64,
        x.kg as i64 - y.kg as i64,
        x.s as i64 - y.s as i64,
        x.a as i64 - y.a as i64,
        x.k as i64 - y.k as i64,
        x.mol as i64 - y.mol as i64,
        x.cd as i64 - y.cd as i64,
        x.rad as i64 - y.rad as i64,
    )
}

fn times(a: i32, b: i32) -> (r: i64)
    ensures
        r == a * b,
{
    assert(i64::MIN <= a * b <= i64::MAX) by (nonlinear_arith)
        requires
            -0x8000_0000 <= a <= 0x7fff_ffff,
            -0x8000_0000 <= b <= 0x7fff_ffff,
    ;
    a as i64 * b as i64
}

impl Dims {
    /// Multiply every exponent by `e` (integer power), where the products are
    /// in range.
    pub fn scaled(&self, e: i32) -> (r: Option<Dims>)
        ensures
            r == dims_scaled(*self, e as int),
    {
        new_dims(
            times(self.m, e),
            times(self.kg, e),
            times(self.s, e),
            times(self.a, e),
            times(self.k, e),
            times(self.mol, e),
            times(self.cd, e),
            times(self.rad, e),
        )
    }

    /// No dimensions at all.
    pub fn zero() -> (r: Dims)
        ensures
            r == no_dims(),
    {
        Dims { m: 0, kg: 0, s: 0, a: 0, k: 0, mol: 0, cd: 0, rad: 0 }
    }
}

/// A factor of a unit.
#[derive(Debug)]
pub struct Term {
    pub dims: Dims,
    pub scale: Scale,
}

/// A result and the position after it.
pub type Parsed<T> = Result<(T, int), UnitFault>;

pub open spec fn at(cs: Seq<char>, p: int, c: char) -> bool {
    0 <= p < cs.len() && cs[p] == c
}

/// The first position from `p` on that holds no character of a unit name.
pub open spec fn name_end(cs: Seq<char>, p: int) -> int
    decreases cs.len() - p,
{
    if 0 <= p < cs.len() && (letter(cs[p]) || cs[p] == '%') {
        name_end(cs, p + 1)
    } else {
        p
    }
}

/// The value of a decimal digit.
pub open spec fn digit(c: char) -> Option<int> {
    if '0' <= c <= '9' {
        Some(c as u32 - '0' as u32)
    } else {
        None
    }
}

/// The digits from `p` on, after a number `n`.
pub open spec fn digits_at(cs: Seq<char>, p: int, n: int) -> (int, int)
    decreases cs.len() - p,
{
    if 0 <= p < cs.len() && digit(cs[p]) is Some {
        digits_at(cs, p + 1, 10 * n + digit(cs[p])->0)
    } else {
        (n, p)
    }
}

/// Digits with a minus sign before them or not: the number and the position
/// after it.
pub open spec fn signed_at(cs: Seq<char>, p: int) -> Option<(int, int)> {
    let negative = at(cs, p, '-');
    let start = if negative {
        p + 1
    } else {
        p
    };
    let (n, q) = digits_at(cs, start, 0);
    if q == start {
        None
    } else if negative {
        Some((-n, q))
    } else {
        Some((n, q))
    }
}

/// A number in parentheses, and the position after them.
pub open spec fn enclosed_at(cs: Seq<char>, p: int) -> Option<(int, int)> {
    if !at(cs, p, '(') {
        None
    } else {
        match signed_at(cs, p + 1) {
            Some((e, q)) => if at(cs, q, ')') {
                Some((e, q + 1))
            } else {
                None
            },
            None => None,
        }
    }
}

/// An exponent: a number, with a `^` before it or not, or a `^` and a number
/// in parentheses. It is 1 where there is no number.
pub open spec fn exponent_at(cs: Seq<char>, p: int) -> Parsed<i32> {
    let p1 = if at(cs, p, '^') {
        p + 1
    } else {
        p
    };
    let (e, q) = if at(cs, p, '^') && enclosed_at(cs, p1) is Some {
        enclosed_at(cs, p1)->0
    } else {
        match signed_at(cs, p1) {
            Some(x) => x,
            None => (
                1,
                if at(cs, p1, '-') {
                    p1 + 1
                } else {
                    p1
                },
            ),
        }
    };
    if small(e) {
        Ok((e as i32, q))
    } else {
        Err(UnitFault::Exponent)
    }
}

/// The unit of a name with one of the prefixes from `i` on.
pub open spec fn prefixed(name: Seq<char>, i: nat) -> Option<(UnitDef, u64)>
    decreases 100 - i,
{
    if i >= 100 {
        None
    } else {
        match unittable::prefix_model(i as int) {
            None => None,
            Some((symbol, _, factor)) => {
                let rest = name.subrange(symbol.len() as int, name.len() as int);
                if text::has_prefix(name, symbol) && unittable::unit_named(rest) is Some {
                    Some((unittable::unit_named(rest)->0, factor))
                } else {
                    prefixed(name, i + 1)
                }
            },
        }
    }
}

/// The dimensions and the scale of a unit name, which may have a prefix.
pub open spec fn resolved(name: Seq<char>) -> Option<Term> {
    match unittable::unit_named(name) {
        Some(u) => Some(Term { dims: u.dims, scale: Scale::Atom(u.scale, None) }),
        None => match prefixed(name, 0) {
            Some((u, f)) => Some(Term { dims: u.dims, scale: Scale::Atom(u.scale, Some(f)) }),
            None => None,
        },
    }
}

/// A power of a factor.
pub open spec fn raised(t: Term, e: i32) -> Result<Term, UnitFault> {
    match dims_scaled(t.dims, e as int) {
        Some(dims) => Ok(Term { dims, scale: Scale::Power(Box::new(t.scale), e) }),
        None => Err(UnitFault::Exponent),
    }
}

/// A product of factors.
pub open spec fn multiplied(a: Term, b: Term) -> Result<Term, UnitFault> {
    match dims_added(a.dims, b.dims) {
        Some(dims) => Ok(
            Term { dims, scale: Scale::Product(Box::new(a.scale), Box::new(b.scale)) },
        ),
        None => Err(UnitFault::Exponent),
    }
}

/// A quotient of factors.
pub open spec fn divided(a: Term, b: Term) -> Result<Term, UnitFault> {
    match dims_subtracted(a.dims, b.dims) {
        Some(dims) => Ok(
            Term { dims, scale: Scale::Quotient(Box::new(a.scale), Box::new(b.scale)) },
        ),
        None => Err(UnitFault::Exponent),
    }
}

/// A unit name with an optional exponent.
pub open spec fn atom_at(cs: Seq<char>, p: int) -> Parsed<Term> {
    let q = name_end(cs, p);
    if q == p {
        Err(
            UnitFault::ExpectedName(
                if 0 <= p < cs.len() {
                    Some(cs[p])
                } else {
                    None
                },
            ),
        )
    } else {
        match exponent_at(cs, q) {
            Err(f) => Err(f),
            Ok((e, q2)) => match resolved(cs.subrange(p, q)) {
                None => Err(UnitFault::Unknown(cs.subrange(p, q))),
                Some(t) => match raised(t, e) {
                    Err(f) => Err(f),
                    Ok(t) => Ok((t, q2)),
                },
            },
        }
    }
}

/// A factor: a unit name, or a group in parentheses, with an optional
/// exponent.
pub open spec fn factor_at(cs: Seq<char>, p: int) -> Parsed<Term>
    decreases cs.len() - p, 0nat,
{
    if !at(cs, p, '(') {
        atom_at(cs, p)
    } else {
        match expr_at(cs, p + 1) {
            Err(f) => Err(f),
            Ok((t, q)) => if !at(cs, q, ')') {
                Err(UnitFault::Unbalanced)
            } else {
                match exponent_at(cs, q + 1) {
                    Err(f) => Err(f),
                    Ok((e, q2)) => match raised(t, e) {
                        Err(f) => Err(f),
                        Ok(t) => Ok((t, q2)),
                    },
                }
            },
        }
    }
}

/// Products and quotients of factors, after the factor `t`.
pub open spec fn rest_at(cs: Seq<char>, p: int, t: Term) -> Parsed<Term>
    decreases cs.len() - p, 2nat,
{
    if at(cs, p, '*') || at(cs, p, '.') || at(cs, p, '/') {
        match factor_at(cs, p + 1) {
            Err(f) => Err(f),
            Ok((u, q)) => {
                let both = if cs[p] == '/' {
                    divided(t, u)
                } else {
                    multiplied(t, u)
                };
                match both {
                    Err(f) => Err(f),
                    Ok(t) => if p < q <= cs.len() {
                        rest_at(cs, q, t)
                    } else {
                        Ok((t, q))
                    },
                }
            },
        }
    } else {
        Ok((t, p))
    }
}

/// A product or quotient of factors.
pub open spec fn expr_at(cs: Seq<char>, p: int) -> Parsed<Term>
    decreases cs.len() - p, 1nat,
{
    match factor_at(cs, p) {
        Err(f) => Err(f),
        Ok((t, q)) => if p < q <= cs.len() {
            rest_at(cs, q, t)
        } else {
            Ok((t, q))
        },
    }
}

/// The first position from `i` on that holds no blank.
pub open spec fn blanks_end(s: Seq<char>, i: int) -> int
    decreases s.len() - i,
{
    if 0 <= i < s.len() && blank(s[i]) {
        blanks_end(s, i + 1)
    } else {
        i
    }
}

/// The position after the last character before `i` that is no blank.
pub open spec fn blanks_start(s: Seq<char>, i: int) -> int
    decreases i,
{
    if 0 < i <= s.len() && blank(s[i - 1]) {
        blanks_start(s, i - 1)
    } else {
        i
    }
}

/// A text without the blanks at its ends.
pub open spec fn trimmed(s: Seq<char>) -> Seq<char> {
    let a = blanks_end(s, 0);
    if a >= s.len() {
        Seq::empty()
    } else {
        s.subrange(a, blanks_start(s, s.len() as int))
    }
}

/// The unit of a text.
pub open spec fn unit_of(s: Seq<char>) -> Result<UnitModel, UnitFault> {
    let cs = trimmed(s);
    if cs.len() == 0 {
        Ok(UnitModel { display: cs, dims: no_dims(), scale: Scale::One })
    } else {
        match expr_at(cs, 0) {
            Err(f) => Err(f),
            Ok((t, q)) => if q != cs.len() {
                Err(UnitFault::Invalid(cs))
            } else {
                Ok(UnitModel { display: cs, dims: t.dims, scale: t.scale })
            },
        }
    }
}

pub(crate) fn chars_of(s: &str) -> (r: Vec<char>)
    ensures
        r@ == s@,
{
    let mut out: Vec<char> = Vec::new();
    for c in it: s.chars()
        invariant
            it.seq() == s@,
            out@ == s@.subrange(0, it.index() as int),
    {
        out.push(c);
        assert(out@ =~= s@.subrange(0, it.index() as int + 1));
    }
    assert(s@.subrange(0, s@.len() as int) =~= s@);
    out
}

pub(crate) fn text_of(cs: &Vec<char>, from: usize, to: usize) -> (r: String)
    requires
        from <= to <= cs@.len(),
    ensures
        r@ == cs@.subrange(from as int, to as int),
{
    let mut out: String = String::new();
    let mut i: usize = from;
    assert(out@ =~= cs@.subrange(from as int, from as int));
    while i < to
        invariant
            from <= i <= to <= cs@.len(),
            out@ == cs@.subrange(from as int, i as int),
        decreases to - i,
    {
        out.push(cs[i]);
        assert(out@ =~= cs@.subrange(from as int, i + 1));
        i = i + 1;
    }
    out
}

/// A text without the blanks at its ends.
pub fn trim(s: &str) -> (r: String)
    ensures
        r@ == trimmed(s@),
{
    let cs = chars_of(s);
    let n: usize = cs.len();
    let mut a: usize = 0;
    while a < n && is_blank(cs[a])
        invariant
            a <= n,
            n == cs@.len(),
            cs@ == s@,
            blanks_end(s@, 0) == blanks_end(s@, a as int),
        decreases n - a,
    {
        a = a + 1;
    }
    if a >= n {
        let none: String = String::new();
        assert(none@ =~= Seq::<char>::empty());
        return none;
    }
    let mut b: usize = n;
    while b > a && is_blank(cs[b - 1])
        invariant
            a < b <= n,
            n == cs@.len(),
            cs@ == s@,
            !blank(cs@[a as int]),
            blanks_start(s@, n as int) == blanks_start(s@, b as int),
        decreases b,
    {
        b = b - 1;
    }
    text_of(&cs, a, b)
}

fn resolve_name(name: &str) -> (r: Option<Term>)
    ensures
        r == resolved(name@),
{
    if let Some(u) = lookup(name) {
        return Some(Term { dims: u.dims, scale: Scale::Atom(u.scale, None) });
    }
    let cs = chars_of(name);
    let mut i: usize = 0;
    while i < 100
        invariant
            i <= 100,
            cs@ == name@,
            unittable::unit_named(name@) is None,
            prefixed(name@, 0) == prefixed(name@, i as nat),
        decreases 100 - i,
    {
        match prefix(i) {
            None => {
                return None;
            },
            Some((symbol, _long, factor)) => {
                if starts_with(name, symbol) {
                    let n: usize = symbol.unicode_len();
                    let rest = text_of(&cs, n, cs.len());
                    if let Some(u) = lookup(rest.as_str()) {
                        return Some(
                            Term { dims: u.dims, scale: Scale::Atom(u.scale, Some(factor)) },
                        );
                    }
                }
            },
        }
        i = i + 1;
    }
    None
}

proof fn lemma_digits(cs: Seq<char>, p: int, n: int)
    requires
        0 <= p <= cs.len(),
        n >= 0,
    ensures
        p <= digits_at(cs, p, n).1 <= cs.len(),
        digits_at(cs, p, n).0 >= n,
    decreases cs.len() - p,
{
    if p < cs.len() && digit(cs[p]) is Some {
        lemma_digits(cs, p + 1, 10 * n + digit(cs[p])->0);
    }
}

/// A number, cut to what no exponent reaches, and the position after it.
fn read_signed(cs: &Vec<char>, p: usize) -> (res: Option<(i64, usize)>)
    requires
        p <= cs@.len(),
    ensures
        match signed_at(cs@, p as int) {
            Some((e, q)) => (res matches Some((f, r)) && r == q && p < r <= cs@.len() && (small(e)
                <==> small(f as int)) && (small(e) ==> f == e)),
            None => res is None,
        },
{
    let mut q: usize = p;
    let mut negative: bool = false;
    if q < cs.len() && cs[q] == '-' {
        negative = true;
        q = q + 1;
    }
    let start: usize = q;
    let mut n: i64 = 0;
    let limit: i64 = 0x1_0000_0000;
    while q < cs.len() && '0' <= cs[q] && cs[q] <= '9'
        invariant
            start <= q <= cs@.len(),
            0 <= n,
            n <= limit,
            limit == 0x1_0000_0000,
            n < limit ==> digits_at(cs@, start as int, 0) == digits_at(cs@, q as int, n as int),
            n == limit ==> digits_at(cs@, start as int, 0).0 >= limit && digits_at(
                cs@,
                start as int,
                0,
            ).1 == digits_at(cs@, q as int, 0).1 && q > start,
        decreases cs@.len() - q,
    {
        let d: i64 = (cs[q] as u32 - '0' as u32) as i64;
        assert(digit(cs@[q as int]) == Some(d as int));
        proof {
            lemma_digits_place(cs@, q + 1, 0, d as int);
            lemma_digits_place(cs@, q + 1, 10 * n + d, 0);
            lemma_digits(cs@, q + 1, 10 * n + d);
        }
        if n < limit {
            let next: i64 = 10 * n + d;
            n = if next < limit {
                next
            } else {
                limit
            };
        }
        q = q + 1;
    }
    proof {
        lemma_digits(cs@, q as int, n as int);
        lemma_digits(cs@, q as int, 0);
    }
    if q == start {
        None
    } else if negative {
        Some((-n, q))
    } else {
        Some((n, q))
    }
}

fn read_exponent(cs: &Vec<char>, p: usize) -> (res: Result<(i32, usize), UnitError>)
    requires
        p <= cs@.len(),
    ensures
        match exponent_at(cs@, p as int) {
            Ok((e, q)) => res is Ok && res->Ok_0.0 == e && res->Ok_0.1 == q && p <= q <= cs@.len(),
            Err(f) => res is Err && res->Err_0@ == f,
        },
{
    let mut start: usize = p;
    if p < cs.len() && cs[p] == '^' {
        start = p + 1;
        if start < cs.len() && cs[start] == '(' {
            if let Some((e, q)) = read_signed(cs, start + 1) {
                if q < cs.len() && cs[q] == ')' {
                    if in_range(e) {
                        return Ok((e as i32, q + 1));
                    }
                    return Err(UnitError::Exponent);
                }
            }
        }
    }
    match read_signed(cs, start) {
        None => {
            if start < cs.len() && cs[start] == '-' {
                start = start + 1;
            }
            Ok((1, start))
        },
        Some((e, q)) => {
            if in_range(e) {
                Ok((e as i32, q))
            } else {
                Err(UnitError::Exponent)
            }
        },
    }
}

/// Where the digits end does not depend on what came before.
proof fn lemma_digits_place(cs: Seq<char>, p: int, n: int, m: int)
    requires
        0 <= p <= cs.len(),
    ensures
        digits_at(cs, p, n).1 == digits_at(cs, p, m).1,
    decreases cs.len() - p,
{
    if p < cs.len() && digit(cs[p]) is Some {
        let d = digit(cs[p])->0;
        lemma_digits_place(cs, p + 1, 10 * n + d, 10 * m + d);
    }
}

fn raise(t: Term, e: i32) -> (res: Result<Term, UnitError>)
    ensures
        match raised(t, e) {
            Ok(u) => res == Ok::<Term, UnitError>(u),
            Err(f) => res is Err && res->Err_0@ == f,
        },
{
    match t.dims.scaled(e) {
        Some(dims) => Ok(Term { dims, scale: Scale::Power(Box::new(t.scale), e) }),
        None => Err(UnitError::Exponent),
    }
}

fn parse_atom(cs: &Vec<char>, p: usize) -> (res: Result<(Term, usize), UnitError>)
    requires
        p <= cs@.len(),
    ensures
        match atom_at(cs@, p as int) {
            Ok((t, q)) => res is Ok && res->Ok_0.0 == t && res->Ok_0.1 == q && p < q <= cs@.len(),
            Err(f) => res is Err && res->Err_0@ == f,
        },
{
    let mut q: usize = p;
    while q < cs.len() && (is_letter(cs[q]) || cs[q] == '%')
        invariant
            p <= q <= cs@.len(),
            name_end(cs@, p as int) == name_end(cs@, q as int),
        decreases cs@.len() - q,
    {
        q = q + 1;
    }
    if q == p {
        let found = if p < cs.len() {
            Some(cs[p])
        } else {
            None
        };
        return Err(UnitError::ExpectedName(found));
    }
    let (e, q2) = read_exponent(cs, q)?;
    let name = text_of(cs, p, q);
    match resolve_name(name.as_str()) {
        None => Err(UnitError::Unknown(name)),
        Some(t) => {
            let u = raise(t, e)?;
            Ok((u, q2))
        },
    }
}

fn parse_factor(cs: &Vec<char>, p: usize) -> (res: Result<(Term, usize), UnitError>)
    requires
        p <= cs@.len(),
    ensures
        match factor_at(cs@, p as int) {
            Ok((t, q)) => res is Ok && res->Ok_0.0 == t && res->Ok_0.1 == q && p < q <= cs@.len(),
            Err(f) => res is Err && res->Err_0@ == f,
        },
    decreases cs@.len() - p, 0nat,
{
    if p < cs.len() && cs[p] == '(' {
        let (t, q) = parse_expr(cs, p + 1)?;
        if q >= cs.len() || cs[q] != ')' {
            return Err(UnitError::Unbalanced);
        }
        let (e, q2) = read_exponent(cs, q + 1)?;
        let u = raise(t, e)?;
        return Ok((u, q2));
    }
    parse_atom(cs, p)
}

fn parse_expr(cs: &Vec<char>, p: usize) -> (res: Result<(Term, usize), UnitError>)
    requires
        p <= cs@.len(),
    ensures
        match expr_at(cs@, p as int) {
            Ok((t, q)) => res is Ok && res->Ok_0.0 == t && res->Ok_0.1 == q && p < q <= cs@.len(),
            Err(f) => res is Err && res->Err_0@ == f,
        },
    decreases cs@.len() - p, 1nat,
{
    let (first, after) = parse_factor(cs, p)?;
    let mut t = first;
    let mut q: usize = after;
    let ghost all = expr_at(cs@, p as int);
    while q < cs.len() && (cs[q] == '*' || cs[q] == '.' || cs[q] == '/')
        invariant
            p < q <= cs@.len(),
            all == expr_at(cs@, p as int),
            all == rest_at(cs@, q as int, t),
        decreases cs@.len() - q,
    {
        let quotient: bool = cs[q] == '/';
        let (u, next) = parse_factor(cs, q + 1)?;
        let both = if quotient {
            sub_dims(t.dims, u.dims)
        } else {
            add_dims(t.dims, u.dims)
        };
        match both {
            None => {
                return Err(UnitError::Exponent);
            },
            Some(dims) => {
                let scale = if quotient {
                    Scale::Quotient(Box::new(t.scale), Box::new(u.scale))
                } else {
                    Scale::Product(Box::new(t.scale), Box::new(u.scale))
                };
                t = Term { dims, scale };
                q = next;
            },
        }
    }
    Ok((t, q))
}

/// Parse a unit text (`"m"`, `"km.m/s"`, `"mJy"`, ...) into a unit: names
/// (with optional case-sensitive SI prefixes) combined by `.` or `*`
/// (product) and `/` (quotient), groups in parentheses, and integer exponents
/// (`m2`, `s-2`, `(km)^2`, `m^(2)`). The empty text has no dimensions.
pub fn parse_unit(s: &str) -> (res: Result<Unit, UnitError>)
    ensures
        match unit_of(s@) {
            Ok(m) => res is Ok && res->Ok_0@ == m,
            Err(f) => res is Err && res->Err_0@ == f,
        },
{
    let display = trim(s);
    let cs = chars_of(display.as_str());
    if cs.len() == 0 {
        return Ok(Unit { display, dims: Dims::zero(), scale: Scale::One });
    }
    let (t, q) = parse_expr(&cs, 0)?;
    if q != cs.len() {
        return Err(UnitError::Invalid(display));
    }
    Ok(Unit { display, dims: t.dims, scale: t.scale })
}

/// The display of a product of units.
pub open spec fn product_display(a: Seq<char>, b: Seq<char>) -> Seq<char> {
    if a.len() == 0 {
        b
    } else if b.len() == 0 {
        a
    } else {
        a + "."@ + b
    }
}

/// The display of a quotient of units.
pub open spec fn quotient_display(a: Seq<char>, b: Seq<char>) -> Seq<char> {
    if b.len() == 0 {
        a
    } else {
        a + "/("@ + b + ")"@
    }
}

/// A base dimension in a canonical text, where its exponent is not zero.
pub open spec fn base_text(before: Seq<char>, name: Seq<char>, e: i32) -> Seq<char> {
    if e == 0 {
        before
    } else {
        (if before.len() == 0 {
            before
        } else {
            before + "."@
        }) + name + (if e == 1 {
            Seq::empty()
        } else {
            text::decimal(e as int)
        })
    }
}

/// The SI base unit text of dimensions.
pub open spec fn canonical(d: Dims) -> Seq<char> {
    base_text(
        base_text(
            base_text(
                base_text(
                    base_text(
                        base_text(
                            base_text(base_text(Seq::empty(), "m"@, d.m), "kg"@, d.kg),
                            "s"@,
                            d.s,
                        ),
                        "A"@,
                        d.a,
                    ),
                    "K"@,
                    d.k,
                ),
                "mol"@,
                d.mol,
            ),
            "cd"@,
            d.cd,
        ),
        "rad"@,
        d.rad,
    )
}

fn push_base(out: &mut String, name: &str, e: i32)
    ensures
        final(out)@ == base_text(old(out)@, name@, e),
{
    if e != 0 {
        if out.as_str().unicode_len() > 0 {
            out.append(".");
        }
        out.append(name);
        if e != 1 {
            push_i64(out, e as i64);
        }
        assert(out@ =~= base_text(old(out)@, name@, e));
    }
}

/// Division that rounds so that what is left over is not negative.
fn euclid(a: i32, n: i32) -> (r: i64)
    requires
        n != 0,
    ensures
        r == a as int / n as int,
{
    let x: i64 = a as i64;
    let y: i64 = if n < 0 {
        -(n as i64)
    } else {
        n as i64
    };
    let q: i64 = if x >= 0 {
        x / y
    } else {
        -((-(x + 1)) / y) - 1
    };
    proof {
        let xi = x as int;
        let yi = y as int;
        if xi < 0 {
            let m = -(xi + 1);
            let d = m / yi;
            let r = m % yi;
            vstd::arithmetic::div_mod::lemma_fundamental_div_mod(m, yi);
            vstd::arithmetic::div_mod::lemma_mod_bound(m, yi);
            assert(xi == yi * (-d - 1) + (yi - 1 - r)) by (nonlinear_arith)
                requires
                    m == yi * d + r,
                    m == -(xi + 1),
            ;
            vstd::arithmetic::div_mod::lemma_fundamental_div_mod_converse(
                xi,
                yi,
                -d - 1,
                yi - 1 - r,
            );
        }
        assert(q == xi / yi);
        assert(xi / (-yi) == -(xi / yi)) by (nonlinear_arith)
            requires
                yi > 0,
        ;
    }
    if n < 0 {
        -q
    } else {
        q
    }
}

impl Unit {
    /// The SI base unit text (`"m"`, `"kg.s-2"`, `"m2"`, ...).
    pub fn canonical_string(&self) -> (r: String)
        ensures
            r@ == canonical(self.dims),
    {
        let mut s: String = String::new();
        assert(s@ =~= Seq::<char>::empty());
        push_base(&mut s, "m", self.dims.m);
        push_base(&mut s, "kg", self.dims.kg);
        push_base(&mut s, "s", self.dims.s);
        push_base(&mut s, "A", self.dims.a);
        push_base(&mut s, "K", self.dims.k);
        push_base(&mut s, "mol", self.dims.mol);
        push_base(&mut s, "cd", self.dims.cd);
        push_base(&mut s, "rad", self.dims.rad);
        s
    }

    /// Whether this is exactly a time dimension.
    pub fn is_time(&self) -> (r: bool)
        ensures
            r == (self.dims == unittable::unit(0, 0, 1, 0, 0, 0, 0, 0, 0).dims),
    {
        self.dims == Dims { m: 0, kg: 0, s: 1, a: 0, k: 0, mol: 0, cd: 0, rad: 0 }
    }

    /// Whether this is exactly an angle dimension.
    pub fn is_angle(&self) -> (r: bool)
        ensures
            r == (self.dims == unittable::unit(0, 0, 0, 0, 0, 0, 0, 1, 0).dims),
    {
        self.dims == Dims { m: 0, kg: 0, s: 0, a: 0, k: 0, mol: 0, cd: 0, rad: 1 }
    }

    /// Whether another unit has the same dimensions.
    pub fn conforms(&self, other: &Unit) -> (r: bool)
        ensures
            r == (self.dims == other.dims),
    {
        self.dims == other.dims
    }

    /// The unit of a product, displayed as `a.b`, where its exponents are in
    /// range.
    pub fn multiplied(&self, other: &Unit) -> (r: Option<Unit>)
        ensures
            match r {
                Some(u) => Some(u.dims) == dims_added(self.dims, other.dims) && u.display@
                    == product_display(self.display@, other.display@) && u.scale == Scale::Product(
                    Box::new(self.scale),
                    Box::new(other.scale),
                ),
                None => dims_added(self.dims, other.dims) is None,
            },
            r matches Some(u) ==> unitlaw::is_product(self@, other@, 1, u@),
    {
        match add_dims(self.dims, other.dims) {
            None => None,
            Some(dims) => {
                let mut display: String = self.display.clone();
                let b: usize = other.display.as_str().unicode_len();
                if display.as_str().unicode_len() > 0 && b > 0 {
                    display.append(".");
                }
                display.append(other.display.as_str());
                assert(display@ =~= product_display(self.display@, other.display@));
                Some(
                    Unit {
                        display,
                        dims,
                        scale: Scale::Product(
                            Box::new(self.scale.copy()),
                            Box::new(other.scale.copy()),
                        ),
                    },
                )
            },
        }
    }

    /// The unit of a quotient, displayed as `a/(b)`, where its exponents are
    /// in range.
    pub fn divided(&self, other: &Unit) -> (r: Option<Unit>)
        ensures
            match r {
                Some(u) => Some(u.dims) == dims_subtracted(self.dims, other.dims) && u.display@
                    == quotient_display(self.display@, other.display@) && u.scale
                    == Scale::Quotient(Box::new(self.scale), Box::new(other.scale)),
                None => dims_subtracted(self.dims, other.dims) is None,
            },
            r matches Some(u) ==> unitlaw::is_product(self@, other@, -1, u@),
    {
        match sub_dims(self.dims, other.dims) {
            None => None,
            Some(dims) => {
                let mut display: String = self.display.clone();
                if other.display.as_str().unicode_len() > 0 {
                    display.append("/(");
                    display.append(other.display.as_str());
                    display.append(")");
                }
                Some(
                    Unit {
                        display,
                        dims,
                        scale: Scale::Quotient(
                            Box::new(self.scale.copy()),
                            Box::new(other.scale.copy()),
                        ),
                    },
                )
            },
        }
    }

    /// The unit of an integer power, displayed as `(unit)n`, where its
    /// exponents are in range.
    pub fn raised(&self, n: i32) -> (r: Option<Unit>)
        ensures
            match r {
                Some(u) => Some(u.dims) == dims_scaled(self.dims, n as int) && u.display@ == "("@
                    + self.display@ + ")"@ + text::decimal(n as int) && u.scale == Scale::Power(
                    Box::new(self.scale),
                    n,
                ),
                None => dims_scaled(self.dims, n as int) is None,
            },
            r matches Some(u) ==> unitlaw::is_power(self@, n as int, u@),
    {
        match self.dims.scaled(n) {
            None => None,
            Some(dims) => {
                let mut display: String = "(".to_owned();
                display.append(self.display.as_str());
                display.append(")");
                push_i64(&mut display, n as i64);
                Some(Unit { display, dims, scale: Scale::Power(Box::new(self.scale.copy()), n) })
            },
        }
    }

    /// The unit of an `n`th root, displayed in SI base units, where its
    /// exponents are in range.
    pub fn rooted(&self, n: i32) -> (r: Option<Unit>)
        requires
            n != 0,
        ensures
            match r {
                Some(u) => Some(u.dims) == dims_divided(self.dims, n as int) && u.display@
                    == canonical(u.dims) && u.scale == Scale::Root(Box::new(self.scale), n),
                None => dims_divided(self.dims, n as int) is None,
            },
            r matches Some(u) ==> unitlaw::is_root(self@, n as int, u@),
    {
        let d = self.dims;
        match new_dims(
            euclid(d.m, n),
            euclid(d.kg, n),
            euclid(d.s, n),
            euclid(d.a, n),
            euclid(d.k, n),
            euclid(d.mol, n),
            euclid(d.cd, n),
            euclid(d.rad, n),
        ) {
            None => None,
            Some(dims) => {
                let mut u = Unit {
                    display: String::new(),
                    dims,
                    scale: Scale::Root(Box::new(self.scale.copy()), n),
                };
                u.display = u.canonical_string();
                proof {
                    unitlaw::lemma_root(self@, n, u@);
                }
                Some(u)
            },
        }
    }
}

/// What a unit is multiplied by, it can be divided by again: the dimensions
/// are those of before.
pub proof fn law_product_undone(a: Dims, b: Dims)
    ensures
        dims_added(a, b) matches Some(d) ==> dims_subtracted(d, b) == Some(a),
{
}

/// A root undoes a power: the dimensions are those of before.
pub proof fn law_power_undone(a: Dims, n: int)
    requires
        n > 0,
    ensures
        dims_scaled(a, n) matches Some(d) ==> dims_divided(d, n) == Some(a),
{
    lemma_undone(a.m as int, n);
    lemma_undone(a.kg as int, n);
    lemma_undone(a.s as int, n);
    lemma_undone(a.a as int, n);
    lemma_undone(a.k as int, n);
    lemma_undone(a.mol as int, n);
    lemma_undone(a.cd as int, n);
    lemma_undone(a.rad as int, n);
}

proof fn lemma_undone(e: int, n: int)
    requires
        n > 0,
    ensures
        (e * n) / n == e,
{
    assert(e * n == n * e + 0) by (nonlinear_arith);
    vstd::arithmetic::div_mod::lemma_fundamental_div_mod_converse(e * n, n, e, 0);
}

/// Blanks only.
pub open spec fn all_blank(s: Seq<char>) -> bool {
    forall|i: int| 0 <= i < s.len() ==> blank(#[trigger] s[i])
}

proof fn lemma_blanks_end(s: Seq<char>, i: int)
    requires
        0 <= i <= s.len(),
    ensures
        i <= blanks_end(s, i) <= s.len(),
        forall|k: int| i <= k < blanks_end(s, i) ==> blank(#[trigger] s[k]),
        blanks_end(s, i) < s.len() ==> !blank(s[blanks_end(s, i)]),
    decreases s.len() - i,
{
    if i < s.len() && blank(s[i]) {
        lemma_blanks_end(s, i + 1);
    }
}

proof fn lemma_blanks_start(s: Seq<char>, i: int)
    requires
        0 <= i <= s.len(),
    ensures
        0 <= blanks_start(s, i) <= i,
        forall|k: int| blanks_start(s, i) <= k < i ==> blank(#[trigger] s[k]),
        blanks_start(s, i) > 0 ==> !blank(s[blanks_start(s, i) - 1]),
    decreases i,
{
    if 0 < i && blank(s[i - 1]) {
        lemma_blanks_start(s, i - 1);
    }
}

/// Trimming takes the blanks at the ends of a text off, and nothing else.
pub proof fn law_trimmed(s: Seq<char>) -> (ends: (Seq<char>, Seq<char>))
    ensures
        s == ends.0 + trimmed(s) + ends.1,
        all_blank(ends.0),
        all_blank(ends.1),
        trimmed(s).len() > 0 ==> !blank(trimmed(s)[0]) && !blank(trimmed(s).last()),
{
    let n = s.len() as int;
    let a = blanks_end(s, 0);
    let b = blanks_start(s, n);
    lemma_blanks_end(s, 0);
    lemma_blanks_start(s, n);
    if a >= n {
        assert(s =~= s + trimmed(s) + Seq::<char>::empty());
        (s, Seq::empty())
    } else {
        assert(a < b) by {
            if b <= a {
                assert(blank(s[a]));
            }
        }
        let x = s.subrange(0, a);
        let y = s.subrange(b, n);
        assert(s =~= x + trimmed(s) + y);
        assert(trimmed(s)[0] == s[a]);
        assert(trimmed(s).last() == s[b - 1]);
        (x, y)
    }
}

} // verus!
