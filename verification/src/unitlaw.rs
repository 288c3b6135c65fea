//! What the texts of units mean: powers, products and quotients of units, and
//! units with prefixes.
use crate::text;
use crate::units;
use crate::units::{Scale, Term, UnitFault, UnitModel};
use crate::unittable;
use crate::unittable::Dims;
use vstd::prelude::*;

verus! {

/// How often a factor goes into a scale: its exponent, where the scale is
/// written as a product of powers of factors. A scale is thus the product of
/// its factors, each to this power. Roots are left out.
pub open spec fn exponent(s: Scale, factor: u64) -> int
    decreases s,
{
    match s {
        Scale::One => 0,
        Scale::Atom(u, p) => (if u == factor {
            1int
        } else {
            0
        }) + (if p == Some(factor) {
            1int
        } else {
            0
        }),
        Scale::Product(a, b) => exponent(*a, factor) + exponent(*b, factor),
        Scale::Quotient(a, b) => exponent(*a, factor) - exponent(*b, factor),
        Scale::Power(a, n) => n * exponent(*a, factor),
        Scale::Root(_, _) => 0,
    }
}

/// The exponents of `b` are those of `a`, times `e`.
pub open spec fn dims_times(a: Dims, e: int, b: Dims) -> bool {
    &&& b.m == a.m * e
    &&& b.kg == a.kg * e
    &&& b.s == a.s * e
    &&& b.a == a.a * e
    &&& b.k == a.k * e
    &&& b.mol == a.mol * e
    &&& b.cd == a.cd * e
    &&& b.rad == a.rad * e
}

/// The exponents of `c` are those of `a` and, `sign` times, those of `b`.
pub open spec fn dims_sum(a: Dims, b: Dims, sign: int, c: Dims) -> bool {
    &&& c.m == a.m + sign * b.m
    &&& c.kg == a.kg + sign * b.kg
    &&& c.s == a.s + sign * b.s
    &&& c.a == a.a + sign * b.a
    &&& c.k == a.k + sign * b.k
    &&& c.mol == a.mol + sign * b.mol
    &&& c.cd == a.cd + sign * b.cd
    &&& c.rad == a.rad + sign * b.rad
}

/// A text stands in another from `o` on, and what follows it ends a factor.
spec fn stands(cs: Seq<char>, o: int, x: Seq<char>) -> bool {
    &&& 0 <= o
    &&& o + x.len() <= cs.len()
    &&& cs.subrange(o, o + x.len()) == x
    &&& o + x.len() < cs.len() ==> {
        let c = cs[o + x.len()];
        c == ')' || c == '.' || c == '*' || c == '/'
    }
}

/// A parse that ended here was not cut short before a parenthesis.
spec fn settled(x: Seq<char>, q: int) -> bool {
    q == x.len() || (0 <= q < x.len() && x[q] != '(')
}

proof fn lemma_char(cs: Seq<char>, o: int, x: Seq<char>, p: int)
    requires
        stands(cs, o, x),
        0 <= p < x.len(),
    ensures
        cs[o + p] == x[p],
{
    assert(cs.subrange(o, o + x.len())[p] == x[p]);
}

proof fn lemma_name(cs: Seq<char>, o: int, x: Seq<char>, p: int)
    requires
        stands(cs, o, x),
        0 <= p <= x.len(),
    ensures
        units::name_end(cs, o + p) == o + units::name_end(x, p),
        p <= units::name_end(x, p) <= x.len(),
    decreases x.len() - p,
{
    if p < x.len() {
        lemma_char(cs, o, x, p);
        if units::letter(x[p]) || x[p] == '%' {
            lemma_name(cs, o, x, p + 1);
        }
    }
}

proof fn lemma_digits(cs: Seq<char>, o: int, x: Seq<char>, p: int, n: int)
    requires
        stands(cs, o, x),
        0 <= p <= x.len(),
    ensures
        units::digits_at(cs, o + p, n).0 == units::digits_at(x, p, n).0,
        units::digits_at(cs, o + p, n).1 == o + units::digits_at(x, p, n).1,
        p <= units::digits_at(x, p, n).1 <= x.len(),
    decreases x.len() - p,
{
    if p < x.len() {
        lemma_char(cs, o, x, p);
        if units::digit(x[p]) is Some {
            lemma_digits(cs, o, x, p + 1, 10 * n + units::digit(x[p])->0);
        }
    }
}

proof fn lemma_signed(cs: Seq<char>, o: int, x: Seq<char>, p: int)
    requires
        stands(cs, o, x),
        0 <= p <= x.len(),
    ensures
        match units::signed_at(x, p) {
            Some((e, q)) => units::signed_at(cs, o + p) == Some((e, o + q)) && p < q <= x.len(),
            None => units::signed_at(cs, o + p) is None,
        },
{
    if p < x.len() {
        lemma_char(cs, o, x, p);
        lemma_digits(cs, o, x, p + 1, 0);
    }
    lemma_digits(cs, o, x, p, 0);
}

proof fn lemma_exponent(cs: Seq<char>, o: int, x: Seq<char>, p: int)
    requires
        stands(cs, o, x),
        0 <= p <= x.len(),
    ensures
        units::exponent_at(x, p) matches Ok((e, q)) ==> p <= q <= x.len() && (settled(x, q)
            ==> units::exponent_at(cs, o + p) == Ok::<(i32, int), UnitFault>((e, o + q))),
{
    let caret = units::at(x, p, '^');
    if p < x.len() {
        lemma_char(cs, o, x, p);
    }
    let p1 = if caret {
        p + 1
    } else {
        p
    };
    lemma_signed(cs, o, x, p1);
    if p1 < x.len() {
        lemma_char(cs, o, x, p1);
        if x[p1] == '(' {
            lemma_signed(cs, o, x, p1 + 1);
            if let Some((e, q)) = units::signed_at(x, p1 + 1) {
                if q < x.len() {
                    lemma_char(cs, o, x, q);
                }
            }
            lemma_no_sign(x, p1);
        }
    }
}

/// No number starts with a parenthesis.
proof fn lemma_no_sign(x: Seq<char>, p: int)
    requires
        0 <= p < x.len(),
        x[p] == '(',
    ensures
        units::signed_at(x, p) is None,
{
}

proof fn lemma_atom(cs: Seq<char>, o: int, x: Seq<char>, p: int)
    requires
        stands(cs, o, x),
        0 <= p <= x.len(),
    ensures
        units::atom_at(x, p) matches Ok((t, q)) ==> p < q <= x.len() && (settled(x, q)
            ==> units::atom_at(cs, o + p) == Ok::<(Term, int), UnitFault>((t, o + q))),
{
    let q = units::name_end(x, p);
    lemma_name(cs, o, x, p);
    lemma_exponent(cs, o, x, q);
    assert(cs.subrange(o + p, o + q) =~= x.subrange(p, q)) by {
        assert forall|i: int| p <= i < q implies cs[o + i] == x[i] by {
            lemma_char(cs, o, x, i);
        }
    }
}

proof fn lemma_factor(cs: Seq<char>, o: int, x: Seq<char>, p: int)
    requires
        stands(cs, o, x),
        0 <= p <= x.len(),
    ensures
        units::factor_at(x, p) matches Ok((t, q)) ==> p < q <= x.len() && (settled(x, q)
            ==> units::factor_at(cs, o + p) == Ok::<(Term, int), UnitFault>((t, o + q))),
    decreases x.len() - p, 0nat,
{
    if p < x.len() {
        lemma_char(cs, o, x, p);
    }
    if units::at(x, p, '(') {
        lemma_expr(cs, o, x, p + 1);
        if let Ok((t, q)) = units::expr_at(x, p + 1) {
            if units::at(x, q, ')') {
                lemma_char(cs, o, x, q);
                lemma_exponent(cs, o, x, q + 1);
                assert(units::rest_at(cs, o + q, t) == Ok::<(Term, int), UnitFault>((t, o + q)));
            }
        }
    } else {
        lemma_atom(cs, o, x, p);
    }
}

proof fn lemma_rest(cs: Seq<char>, o: int, x: Seq<char>, p: int, t0: Term)
    requires
        stands(cs, o, x),
        0 <= p <= x.len(),
    ensures
        units::rest_at(x, p, t0) matches Ok((t, q)) ==> p <= q <= x.len() && (settled(x, q)
            ==> settled(x, p) && units::rest_at(cs, o + p, t0) == units::rest_at(cs, o + q, t)),
    decreases x.len() - p, 2nat,
{
    if units::at(x, p, '*') || units::at(x, p, '.') || units::at(x, p, '/') {
        lemma_char(cs, o, x, p);
        lemma_factor(cs, o, x, p + 1);
        if let Ok((u, q)) = units::factor_at(x, p + 1) {
            let both = if x[p] == '/' {
                units::divided(t0, u)
            } else {
                units::multiplied(t0, u)
            };
            if let Ok(t) = both {
                lemma_rest(cs, o, x, q, t);
            }
        }
    }
}

/// What is read of a text on its own is read of it in another; and there what
/// follows it is read on.
proof fn lemma_expr(cs: Seq<char>, o: int, x: Seq<char>, p: int)
    requires
        stands(cs, o, x),
        0 <= p <= x.len(),
    ensures
        units::expr_at(x, p) matches Ok((t, q)) ==> p < q <= x.len() && (settled(x, q)
            ==> units::expr_at(cs, o + p) == units::rest_at(cs, o + q, t)),
    decreases x.len() - p, 1nat,
{
    lemma_factor(cs, o, x, p);
    if let Ok((t, q)) = units::factor_at(x, p) {
        lemma_rest(cs, o, x, q, t);
    }
}

proof fn lemma_digits_of(cs: Seq<char>, p: int, m: nat)
    requires
        0 <= p,
        p + text::decimal_nat(m).len() <= cs.len(),
        cs.subrange(p, p + text::decimal_nat(m).len()) == text::decimal_nat(m),
    ensures
        units::digits_at(cs, p, 0) == units::digits_at(
            cs,
            p + text::decimal_nat(m).len(),
            m as int,
        ),
    decreases m,
{
    let s = text::decimal_nat(m);
    let n = s.len() as int;
    assert(cs[p + n - 1] == s[n - 1]) by {
        text::lemma_decimal_digits(m);
        assert(cs.subrange(p, p + n)[n - 1] == s[n - 1]);
    }
    assert(units::digit(s[n - 1]) == Some(m as int % 10));
    if m >= 10 {
        let front = text::decimal_nat(m / 10);
        assert(cs.subrange(p, p + n - 1) =~= front) by {
            assert forall|i: int| 0 <= i < n - 1 implies cs[p + i] == front[i] by {
                assert(cs.subrange(p, p + n)[i] == s[i]);
            }
        }
        lemma_digits_of(cs, p, m / 10);
    }
}

/// A number at the end of a text.
proof fn lemma_number(cs: Seq<char>, p: int, e: int)
    requires
        0 <= p <= cs.len(),
        cs.subrange(p, cs.len() as int) == text::decimal(e),
    ensures
        units::signed_at(cs, p) == Some((e, cs.len() as int)),
        text::decimal(e).len() > 0,
        text::decimal(e)[0] == '-' || text::is_digit(text::decimal(e)[0]),
        text::is_digit(text::decimal(e).last()),
        cs[p] == text::decimal(e)[0],
{
    let s = text::decimal(e);
    let m: nat = if e < 0 {
        (-e) as nat
    } else {
        e as nat
    };
    let d = text::decimal_nat(m);
    text::lemma_decimal_digits(m);
    assert(s.len() > 0);
    assert(cs.subrange(p, cs.len() as int).len() == s.len());
    assert(cs.subrange(p, cs.len() as int)[0] == cs[p]);
    assert(d.last() == d[d.len() - 1]);
    if e < 0 {
        assert(s =~= seq!['-'] + d);
        assert(s.last() == d.last());
        assert(cs.subrange(p + 1, cs.len() as int) =~= d) by {
            assert forall|i: int| 0 <= i < d.len() implies cs[p + 1 + i] == d[i] by {
                assert(cs.subrange(p, cs.len() as int)[i + 1] == s[i + 1]);
            }
        }
        lemma_digits_of(cs, p + 1, m);
    } else {
        assert(text::is_digit(d[0]));
        lemma_digits_of(cs, p, m);
    }
}

/// A text without blanks at its ends.
pub open spec fn bare(s: Seq<char>) -> bool {
    s.len() > 0 && !units::blank(s[0]) && !units::blank(s.last())
}

proof fn lemma_bare(s: Seq<char>)
    requires
        bare(s),
    ensures
        units::trimmed(s) == s,
{
    assert(s.subrange(0, s.len() as int) =~= s);
}

/// What raising a term does.
proof fn lemma_raised(t: Term, e: i32, factor: u64)
    ensures
        match units::raised(t, e) {
            Ok(u) => dims_times(t.dims, e as int, u.dims) && exponent(u.scale, factor) == e
                * exponent(t.scale, factor),
            Err(f) => f == UnitFault::Exponent && !(units::small(t.dims.m * e) && units::small(
                t.dims.kg * e,
            ) && units::small(t.dims.s * e) && units::small(t.dims.a * e) && units::small(
                t.dims.k * e,
            ) && units::small(t.dims.mol * e) && units::small(t.dims.cd * e) && units::small(
                t.dims.rad * e,
            )),
        },
{
}

/// Dimensions whose exponents stay in range when multiplied.
pub open spec fn dims_fit(d: Dims, e: int) -> bool {
    &&& units::small(d.m * e)
    &&& units::small(d.kg * e)
    &&& units::small(d.s * e)
    &&& units::small(d.a * e)
    &&& units::small(d.k * e)
    &&& units::small(d.mol * e)
    &&& units::small(d.cd * e)
    &&& units::small(d.rad * e)
}

/// A unit is another one to a power: its dimensions are multiplied by the
/// exponent, and every factor of its scale has its exponent multiplied by it.
pub open spec fn is_power(u: UnitModel, e: int, p: UnitModel) -> bool {
    &&& dims_times(u.dims, e, p.dims)
    &&& forall|f: u64| #[trigger] exponent(p.scale, f) == e * exponent(u.scale, f)
}

/// A name of letters and percent signs.
pub open spec fn is_name(s: Seq<char>) -> bool {
    &&& bare(s)
    &&& forall|i: int| 0 <= i < s.len() ==> units::letter(#[trigger] s[i]) || s[i] == '%'
}

proof fn lemma_name_end(cs: Seq<char>, n: int, p: int)
    requires
        0 <= p <= n <= cs.len(),
        forall|i: int| 0 <= i < n ==> units::letter(#[trigger] cs[i]) || cs[i] == '%',
        n < cs.len() ==> !units::letter(cs[n]) && cs[n] != '%',
    ensures
        units::name_end(cs, p) == n,
    decreases n - p,
{
    if p < n {
        assert(units::letter(cs[p]) || cs[p] == '%');
        lemma_name_end(cs, n, p + 1);
    }
}

/// A name with an exponent behind it, all of which is read.
proof fn lemma_named(u: Seq<char>, tail: Seq<char>, e: i32)
    requires
        is_name(u),
        units::unit_of(u) is Ok,
        tail.len() > 0,
        !units::blank(tail.last()),
        !units::letter(tail[0]) && tail[0] != '%',
        units::exponent_at(u + tail, u.len() as int) == Ok::<(i32, int), UnitFault>(
            (e, (u + tail).len() as int),
        ),
    ensures
        dims_fit(units::unit_of(u)->Ok_0.dims, e as int) ==> (units::unit_of(u + tail) matches Ok(p)
            && is_power(units::unit_of(u)->Ok_0, e as int, p)),
        !dims_fit(units::unit_of(u)->Ok_0.dims, e as int) ==> units::unit_of(u + tail) == Err::<
            UnitModel,
            UnitFault,
        >(UnitFault::Exponent),
{
    let cs = u + tail;
    let n = u.len() as int;
    let t = units::resolved(u)->0;
    lemma_bare(u);
    lemma_not_open(u[0]);
    lemma_name_end(u, n, 0);
    assert(units::exponent_at(u, n) == Ok::<(i32, int), UnitFault>((1, n)));
    assert(u.subrange(0, n) =~= u);
    assert(cs[0] == u[0] && cs.last() == tail.last());
    lemma_bare(cs);
    assert forall|i: int| 0 <= i < n implies units::letter(#[trigger] cs[i]) || cs[i] == '%' by {
        assert(cs[i] == u[i]);
    }
    assert(cs[n] == tail[0]);
    lemma_name_end(cs, n, 0);
    assert(cs.subrange(0, n) =~= u);
    assert(units::atom_at(u, 0) is Ok ==> units::factor_at(u, 0) == units::atom_at(u, 0));
    lemma_whole(u);
    assert forall|f: u64|
        units::raised(t, e) is Ok implies #[trigger] exponent(units::raised(t, e)->Ok_0.scale, f)
        == e * exponent(units::unit_of(u)->Ok_0.scale, f) by {
        lemma_raised(t, e, f);
        lemma_raised(t, 1, f);
        let x = exponent(t.scale, f);
        assert(e * (1 * x) == e * x);
    }
    lemma_raised(t, e, 0);
    lemma_raised(t, 1, 0);
    assert(units::factor_at(cs, 0) == units::atom_at(cs, 0));
    lemma_same_fit(t.dims, units::unit_of(u)->Ok_0.dims, e as int);
    if units::raised(t, e) is Ok {
        let v = units::raised(t, e)->Ok_0;
        assert(units::rest_at(cs, cs.len() as int, v) == Ok::<(Term, int), UnitFault>(
            (v, cs.len() as int),
        ));
    }
}

/// No name starts with a parenthesis.
proof fn lemma_not_open(c: char)
    requires
        units::letter(c) || c == '%',
    ensures
        c != '(',
{
}

proof fn lemma_same_fit(a: Dims, b: Dims, e: int)
    requires
        dims_times(a, 1, b),
    ensures
        dims_fit(a, e) == dims_fit(b, e),
        forall|d: Dims| dims_times(a, e, d) == #[trigger] dims_times(b, e, d),
{
}

/// What is read of the whole of a text.
proof fn lemma_whole(x: Seq<char>)
    requires
        bare(x),
    ensures
        units::unit_of(x) matches Ok(u) ==> (units::expr_at(x, 0) matches Ok((t, q)) && q == x.len()
            && t.dims == u.dims && t.scale == u.scale),
{
    lemma_bare(x);
}

/// A unit name with an exponent behind it, as digits, behind a caret, or behind
/// a caret and in parentheses: the unit to that power, where its exponents stay
/// in range.
pub proof fn law_named_power(u: Seq<char>, e: i32, form: int)
    requires
        is_name(u),
        units::unit_of(u) is Ok,
        0 <= form < 3,
    ensures
        ({
            let s = u + if form == 0 {
                text::decimal(e as int)
            } else if form == 1 {
                seq!['^'] + text::decimal(e as int)
            } else {
                seq!['^', '('] + text::decimal(e as int) + seq![')']
            };
            let base = units::unit_of(u)->Ok_0;
            &&& dims_fit(base.dims, e as int) ==> (units::unit_of(s) matches Ok(p) && is_power(
                base,
                e as int,
                p,
            ))
            &&& !dims_fit(base.dims, e as int) ==> units::unit_of(s) == Err::<
                UnitModel,
                UnitFault,
            >(UnitFault::Exponent)
        }),
{
    let d = text::decimal(e as int);
    let tail = if form == 0 {
        d
    } else if form == 1 {
        seq!['^'] + d
    } else {
        seq!['^', '('] + d + seq![')']
    };
    lemma_power_text(u, e, form);
    lemma_named(u, tail, e);
}

/// An exponent at the end of a text, in any of its forms.
proof fn lemma_power_text(u: Seq<char>, e: i32, form: int)
    requires
        0 <= form < 3,
    ensures
        ({
            let d = text::decimal(e as int);
            let tail = if form == 0 {
                d
            } else if form == 1 {
                seq!['^'] + d
            } else {
                seq!['^', '('] + d + seq![')']
            };
            &&& tail.len() > 0
            &&& !units::blank(tail.last())
            &&& !units::letter(tail[0]) && tail[0] != '%'
            &&& tail[0] != '.' && tail[0] != '*' && tail[0] != '/' && tail[0] != '('
            &&& units::exponent_at(u + tail, u.len() as int) == Ok::<(i32, int), UnitFault>(
                (e, (u + tail).len() as int),
            )
        }),
{
    let d = text::decimal(e as int);
    let n = u.len() as int;
    if form == 0 {
        let cs = u + d;
        assert(cs.subrange(n, cs.len() as int) =~= d);
        lemma_number(cs, n, e as int);
    } else if form == 1 {
        let cs = u + (seq!['^'] + d);
        assert(cs.subrange(n + 1, cs.len() as int) =~= d);
        lemma_number(cs, n + 1, e as int);
        assert(cs[n] == '^');
        assert((seq!['^'] + d).last() == d.last());
    } else {
        let tail = seq!['^', '('] + d + seq![')'];
        let cs = u + tail;
        let short = seq!['^', '('] + d;
        assert(short.subrange(2, short.len() as int) =~= d);
        lemma_number(short, 2, e as int);
        assert(cs.subrange(n, n + short.len()) =~= short);
        assert(cs[n + short.len()] == ')');
        lemma_signed(cs, n, short, 2);
        assert(cs[n] == '^' && cs[n + 1] == '(');
    }
}

/// What is read of a group in parentheses with an exponent behind it.
#[verifier::spinoff_prover]
#[verifier::rlimit(60)]
proof fn lemma_group_read(x: Seq<char>, tail: Seq<char>, e: i32, t: Term)
    requires
        bare(x),
        units::expr_at(x, 0) == Ok::<(Term, int), UnitFault>((t, x.len() as int)),
        ({
            let cs = seq!['('] + x + seq![')'] + tail;
            units::exponent_at(cs, x.len() as int + 2) == Ok::<(i32, int), UnitFault>(
                (e, cs.len() as int),
            )
        }),
    ensures
        ({
            let cs = seq!['('] + x + seq![')'] + tail;
            units::expr_at(cs, 0) == match units::raised(t, e) {
                Ok(v) => Ok::<(Term, int), UnitFault>((v, cs.len() as int)),
                Err(f) => Err(f),
            }
        }),
{
    let cs = seq!['('] + x + seq![')'] + tail;
    let n = x.len() as int;
    assert(cs.subrange(1, 1 + n) =~= x);
    assert(cs[1 + n] == ')');
    lemma_expr(cs, 1, x, 0);
    assert(units::expr_at(cs, 1) == Ok::<(Term, int), UnitFault>((t, n + 1)));
    assert(cs[0] == '(');
    if units::raised(t, e) is Ok {
        let v = units::raised(t, e)->Ok_0;
        assert(units::factor_at(cs, 0) == Ok::<(Term, int), UnitFault>((v, cs.len() as int)));
        assert(units::rest_at(cs, cs.len() as int, v) == Ok::<(Term, int), UnitFault>(
            (v, cs.len() as int),
        ));
    }
}

proof fn lemma_unit_power(a: UnitModel, t: Term, e: i32, p: UnitModel)
    requires
        a.dims == t.dims,
        a.scale == t.scale,
        units::raised(t, e) is Ok,
        p.dims == units::raised(t, e)->Ok_0.dims,
        p.scale == units::raised(t, e)->Ok_0.scale,
    ensures
        is_power(a, e as int, p),
        dims_fit(a.dims, e as int),
{
    assert forall|f: u64| #[trigger] exponent(p.scale, f) == e * exponent(a.scale, f) by {
        lemma_raised(t, e, f);
    }
    lemma_raised(t, e, 0);
}

/// A group in parentheses with an exponent behind it: the unit of the group to
/// that power, where its exponents stay in range. Without an exponent it is the
/// unit of the group.
#[verifier::spinoff_prover]
#[verifier::rlimit(60)]
pub proof fn law_group_power(x: Seq<char>, e: i32, form: int)
    requires
        bare(x),
        units::unit_of(x) is Ok,
        0 <= form < 4,
        form == 3 ==> e == 1,
    ensures
        ({
            let s = seq!['('] + x + seq![')'] + if form == 0 {
                text::decimal(e as int)
            } else if form == 1 {
                seq!['^'] + text::decimal(e as int)
            } else if form == 2 {
                seq!['^', '('] + text::decimal(e as int) + seq![')']
            } else {
                Seq::empty()
            };
            let base = units::unit_of(x)->Ok_0;
            &&& dims_fit(base.dims, e as int) ==> (units::unit_of(s) matches Ok(p) && is_power(
                base,
                e as int,
                p,
            ))
            &&& !dims_fit(base.dims, e as int) ==> units::unit_of(s) == Err::<
                UnitModel,
                UnitFault,
            >(UnitFault::Exponent)
        }),
{
    let d = text::decimal(e as int);
    let tail = if form == 0 {
        d
    } else if form == 1 {
        seq!['^'] + d
    } else if form == 2 {
        seq!['^', '('] + d + seq![')']
    } else {
        Seq::empty()
    };
    let g = seq!['('] + x + seq![')'];
    let cs = g + tail;
    lemma_bare(x);
    let (t, _) = units::expr_at(x, 0)->Ok_0;
    if form < 3 {
        lemma_power_text(g, e, form);
        assert(cs.last() == tail.last());
    } else {
        assert(cs.last() == ')');
        assert(units::exponent_at(cs, cs.len() as int) == Ok::<(i32, int), UnitFault>(
            (1, cs.len() as int),
        ));
    }
    assert(cs[0] == '(');
    lemma_bare(cs);
    lemma_group_read(x, tail, e, t);
    lemma_raised(t, e, 0);
    if units::raised(t, e) is Ok {
        lemma_unit_power(units::unit_of(x)->Ok_0, t, e, units::unit_of(cs)->Ok_0);
    }
}

/// 1 for a sign that multiplies, -1 for one that divides.
pub open spec fn sign_of(op: char) -> int {
    if op == '/' {
        -1
    } else {
        1
    }
}

/// A unit is the product of two, or their quotient where `sign` is -1: the
/// exponents of dimensions and of all factors are added, or subtracted.
pub open spec fn is_product(a: UnitModel, b: UnitModel, sign: int, c: UnitModel) -> bool {
    &&& dims_sum(a.dims, b.dims, sign, c.dims)
    &&& forall|f: u64| #[trigger]
        exponent(c.scale, f) == exponent(a.scale, f) + sign * exponent(b.scale, f)
}

/// Dimensions whose sum, or difference, stays in range.
pub open spec fn sum_fits(a: Dims, b: Dims, sign: int) -> bool {
    &&& units::small(a.m + sign * b.m)
    &&& units::small(a.kg + sign * b.kg)
    &&& units::small(a.s + sign * b.s)
    &&& units::small(a.a + sign * b.a)
    &&& units::small(a.k + sign * b.k)
    &&& units::small(a.mol + sign * b.mol)
    &&& units::small(a.cd + sign * b.cd)
    &&& units::small(a.rad + sign * b.rad)
}

/// Two terms with a sign between them.
pub open spec fn combined(t: Term, v: Term, op: char) -> Result<Term, UnitFault> {
    if op == '/' {
        units::divided(t, v)
    } else {
        units::multiplied(t, v)
    }
}

/// What is read of two units with a sign between them.
#[verifier::spinoff_prover]
#[verifier::rlimit(60)]
proof fn lemma_product_read(x: Seq<char>, op: char, y: Seq<char>, t: Term, u: Term)
    requires
        bare(x),
        bare(y),
        units::expr_at(x, 0) == Ok::<(Term, int), UnitFault>((t, x.len() as int)),
        units::expr_at(y, 0) == Ok::<(Term, int), UnitFault>((u, y.len() as int)),
        op == '.' || op == '*' || op == '/',
    ensures
        ({
            let cs = x + seq![op, '('] + y + seq![')'];
            let end = cs.len() as int;
            &&& bare(cs)
            &&& units::raised(u, 1) is Ok
            &&& units::expr_at(cs, 0) == match combined(t, units::raised(u, 1)->Ok_0, op) {
                Ok(w) => Ok::<(Term, int), UnitFault>((w, end)),
                Err(f) => Err(f),
            }
        }),
{
    let cs = x + seq![op, '('] + y + seq![')'];
    let n = x.len() as int;
    let k = y.len() as int;
    assert(cs.subrange(0, n) =~= x);
    assert(cs[n] == op);
    lemma_expr(cs, 0, x, 0);
    assert(cs.subrange(n + 2, n + 2 + k) =~= y);
    assert(cs[n + 2 + k] == ')');
    lemma_expr(cs, n + 2, y, 0);
    assert(units::expr_at(cs, n + 2) == Ok::<(Term, int), UnitFault>((u, n + 2 + k)));
    assert(cs[n + 1] == '(');
    assert(cs[0] == x[0] && cs.last() == ')');
    assert(cs.len() == n + k + 3);
    assert(units::exponent_at(cs, n + k + 3) == Ok::<(i32, int), UnitFault>((1, n + k + 3)));
    let v = units::raised(u, 1)->Ok_0;
    lemma_raised(u, 1, 0);
    assert(units::factor_at(cs, n + 1) == Ok::<(Term, int), UnitFault>((v, n + k + 3)));
    if combined(t, v, op) is Ok {
        let w = combined(t, v, op)->Ok_0;
        assert(units::rest_at(cs, n + k + 3, w) == Ok::<(Term, int), UnitFault>((w, n + k + 3)));
    }
}

/// A term as a unit without a text.
spec fn as_unit(t: Term) -> UnitModel {
    UnitModel { display: Seq::empty(), dims: t.dims, scale: t.scale }
}

/// What multiplying or dividing terms does.
proof fn lemma_combined(t: Term, u: Term, op: char)
    requires
        units::raised(u, 1) is Ok,
    ensures
        match combined(t, units::raised(u, 1)->Ok_0, op) {
            Ok(w) => sum_fits(t.dims, u.dims, sign_of(op)) && is_product(
                as_unit(t),
                as_unit(u),
                sign_of(op),
                as_unit(w),
            ),
            Err(f) => f == UnitFault::Exponent && !sum_fits(t.dims, u.dims, sign_of(op)),
        },
{
    let v = units::raised(u, 1)->Ok_0;
    lemma_raised(u, 1, 0);
    assert(v.dims == u.dims);
    if let Ok(w) = combined(t, v, op) {
        assert forall|f: u64| #[trigger] exponent(as_unit(w).scale, f) == exponent(
            as_unit(t).scale,
            f,
        ) + sign_of(op) * exponent(as_unit(u).scale, f) by {
            lemma_raised(u, 1, f);
            assert(exponent(v.scale, f) == exponent(u.scale, f));
            if op == '/' {
                assert(exponent(w.scale, f) == exponent(t.scale, f) - exponent(v.scale, f));
                assert((-1) * exponent(u.scale, f) == -exponent(u.scale, f));
            } else {
                assert(exponent(w.scale, f) == exponent(t.scale, f) + exponent(v.scale, f));
            }
        }
    }
}

proof fn lemma_unit_product(
    a: UnitModel,
    b: UnitModel,
    sign: int,
    c: UnitModel,
    t: Term,
    u: Term,
    w: Term,
)
    requires
        is_product(as_unit(t), as_unit(u), sign, as_unit(w)),
        a.dims == t.dims,
        a.scale == t.scale,
        b.dims == u.dims,
        b.scale == u.scale,
        c.dims == w.dims,
        c.scale == w.scale,
    ensures
        is_product(a, b, sign, c),
{
    assert forall|f: u64| #[trigger] exponent(c.scale, f) == exponent(a.scale, f) + sign * exponent(
        b.scale,
        f,
    ) by {
        assert(exponent(as_unit(w).scale, f) == exponent(as_unit(t).scale, f) + sign * exponent(
            as_unit(u).scale,
            f,
        ));
    }
}

/// Two units with a sign between them, the second in parentheses: their
/// product for `.` and `*`, their quotient for `/`, where the exponents stay in
/// range.
#[verifier::spinoff_prover]
#[verifier::rlimit(80)]
pub proof fn law_product_text(x: Seq<char>, op: char, y: Seq<char>)
    requires
        bare(x),
        bare(y),
        units::unit_of(x) is Ok,
        units::unit_of(y) is Ok,
        op == '.' || op == '*' || op == '/',
    ensures
        ({
            let s = x + seq![op, '('] + y + seq![')'];
            let sign = sign_of(op);
            let a = units::unit_of(x)->Ok_0;
            let b = units::unit_of(y)->Ok_0;
            &&& sum_fits(a.dims, b.dims, sign) ==> (units::unit_of(s) matches Ok(c) && is_product(
                a,
                b,
                sign,
                c,
            ))
            &&& !sum_fits(a.dims, b.dims, sign) ==> units::unit_of(s) == Err::<
                UnitModel,
                UnitFault,
            >(UnitFault::Exponent)
        }),
{
    lemma_bare(x);
    lemma_bare(y);
    let (t, _) = units::expr_at(x, 0)->Ok_0;
    let (u, _) = units::expr_at(y, 0)->Ok_0;
    let s = x + seq![op, '('] + y + seq![')'];
    lemma_product_read(x, op, y, t, u);
    lemma_bare(s);
    lemma_combined(t, u, op);
    let a = units::unit_of(x)->Ok_0;
    let b = units::unit_of(y)->Ok_0;
    assert(a.dims == t.dims && a.scale == t.scale);
    assert(b.dims == u.dims && b.scale == u.scale);
    if sum_fits(a.dims, b.dims, sign_of(op)) {
        let w = combined(t, units::raised(u, 1)->Ok_0, op)->Ok_0;
        lemma_unit_product(a, b, sign_of(op), units::unit_of(s)->Ok_0, t, u, w);
    }
}

/// The bits of 1.0.
pub open spec fn one() -> u64 {
    0x3ff0_0000_0000_0000
}

/// A scale of nothing but ones.
pub open spec fn plain_scale(s: Scale) -> bool {
    forall|f: u64| f != one() ==> #[trigger] exponent(s, f) == 0
}

/// What a factor with an exponent, or without one for an exponent of 1, reads
/// as.
spec fn power_text(name: Seq<char>, e: i32) -> Seq<char> {
    name + if e == 1 {
        Seq::empty()
    } else {
        text::decimal(e as int)
    }
}

proof fn lemma_power_factor(name: Seq<char>, e: i32, t: Term)
    requires
        is_name(name),
        units::resolved(name) == Some(t),
        units::raised(t, e) is Ok,
    ensures
        bare(power_text(name, e)),
        units::factor_at(power_text(name, e), 0) == Ok::<(Term, int), UnitFault>(
            (units::raised(t, e)->Ok_0, power_text(name, e).len() as int),
        ),
{
    let cs = power_text(name, e);
    let n = name.len() as int;
    lemma_not_open(name[0]);
    assert(cs[0] == name[0]);
    assert forall|i: int| 0 <= i < n implies units::letter(#[trigger] cs[i]) || cs[i] == '%' by {
        assert(cs[i] == name[i]);
    }
    if e == 1 {
        assert(cs =~= name);
        assert(units::exponent_at(cs, n) == Ok::<(i32, int), UnitFault>((1, n)));
    } else {
        lemma_power_text(name, e, 0);
        assert(cs[n] == text::decimal(e as int)[0]);
        assert(cs.last() == text::decimal(e as int).last());
    }
    lemma_name_end(cs, n, 0);
    assert(cs.subrange(0, n) =~= name);
}

/// An exponent is that of a base unit or stays as it was.
spec fn one_exponent(d: int, b: int, e: int, d2: int) -> bool {
    (b == 0 && d2 == d) || (b == 1 && d == 0 && d2 == e)
}

/// Dimensions with one more exponent.
spec fn one_more(d: Dims, b: Dims, e: i32, d2: Dims) -> bool {
    one_exponent(d.m as int, b.m as int, e as int, d2.m as int) && one_exponent(
        d.kg as int,
        b.kg as int,
        e as int,
        d2.kg as int,
    ) && one_exponent(d.s as int, b.s as int, e as int, d2.s as int) && one_exponent(
        d.a as int,
        b.a as int,
        e as int,
        d2.a as int,
    ) && one_exponent(d.k as int, b.k as int, e as int, d2.k as int) && one_exponent(
        d.mol as int,
        b.mol as int,
        e as int,
        d2.mol as int,
    ) && one_exponent(d.cd as int, b.cd as int, e as int, d2.cd as int) && one_exponent(
        d.rad as int,
        b.rad as int,
        e as int,
        d2.rad as int,
    )
}

proof fn lemma_one_exponent(d: int, b: int, e: int, d2: int)
    requires
        one_exponent(d, b, e, d2),
    ensures
        d2 == d + b * e,
        b * e == 0 || b * e == e,
        e == 0 ==> d2 == d,
{
    assert(0 * e == 0);
    assert(1 * e == e);
}

proof fn lemma_one_more(d: Dims, b: Dims, e: i32, d2: Dims)
    requires
        one_more(d, b, e, d2),
    ensures
        dims_fit(b, e as int),
        units::dims_added(d, units::dims_scaled(b, e as int)->0) == Some(d2),
        e == 0 ==> d2 == d,
{
    lemma_one_exponent(d.m as int, b.m as int, e as int, d2.m as int);
    lemma_one_exponent(d.kg as int, b.kg as int, e as int, d2.kg as int);
    lemma_one_exponent(d.s as int, b.s as int, e as int, d2.s as int);
    lemma_one_exponent(d.a as int, b.a as int, e as int, d2.a as int);
    lemma_one_exponent(d.k as int, b.k as int, e as int, d2.k as int);
    lemma_one_exponent(d.mol as int, b.mol as int, e as int, d2.mol as int);
    lemma_one_exponent(d.cd as int, b.cd as int, e as int, d2.cd as int);
    lemma_one_exponent(d.rad as int, b.rad as int, e as int, d2.rad as int);
}

/// One more base unit behind a text of base units.
#[verifier::spinoff_prover]
#[verifier::rlimit(60)]
proof fn lemma_base(before: Seq<char>, name: Seq<char>, e: i32, d: Dims, b: Dims, d2: Dims)
    requires
        reads_as(before, d),
        is_name(name),
        units::resolved(name) == Some(Term { dims: b, scale: Scale::Atom(one(), None) }),
        one_more(d, b, e, d2),
    ensures
        reads_as(units::base_text(before, name, e), d2),
{
    let t = Term { dims: b, scale: Scale::Atom(one(), None) };
    let after = units::base_text(before, name, e);
    lemma_one_more(d, b, e, d2);
    if e != 0 {
        let f = power_text(name, e);
        lemma_raised(t, e, 0);
        let v = units::raised(t, e)->Ok_0;
        lemma_power_factor(name, e, t);
        assert forall|x: u64| x != one() implies #[trigger] exponent(v.scale, x) == 0 by {
            lemma_raised(t, e, x);
            assert(exponent(t.scale, x) == 0);
            assert(e * 0 == 0);
        }
        if before.len() == 0 {
            assert(after =~= f);
            assert(units::rest_at(f, f.len() as int, v) == Ok::<(Term, int), UnitFault>(
                (v, f.len() as int),
            ));
            assert(v.dims == d2);
        } else {
            reveal_strlit(".");
            assert("."@ =~= seq!['.']);
            let n = before.len() as int;
            let (u, _) = units::expr_at(before, 0)->Ok_0;
            assert(after =~= before + seq!['.'] + f);
            assert(after.subrange(0, n) =~= before);
            assert(after[n] == '.');
            lemma_expr(after, 0, before, 0);
            assert(after.subrange(n + 1, n + 1 + f.len()) =~= f);
            lemma_factor(after, n + 1, f, 0);
            assert(after.len() == n + 1 + f.len());
            let w = units::multiplied(u, v)->Ok_0;
            assert(units::rest_at(after, after.len() as int, w) == Ok::<(Term, int), UnitFault>(
                (w, after.len() as int),
            ));
            assert(after[0] == before[0] && after.last() == f.last());
            assert forall|x: u64| x != one() implies #[trigger] exponent(w.scale, x) == 0 by {
                assert(exponent(u.scale, x) == 0);
                assert(exponent(v.scale, x) == 0);
            }
        }
    }
}

/// A text is read as a unit of these dimensions without a factor, and has no
/// blanks at its ends; nothing at all has no dimensions.
spec fn reads_as(s: Seq<char>, d: Dims) -> bool {
    if s.len() == 0 {
        d == units::no_dims()
    } else {
        bare(s) && (units::expr_at(s, 0) matches Ok((t, q)) && q == s.len() && t.dims == d
            && plain_scale(t.scale))
    }
}

/// The base units of the table.
proof fn lemma_base_names()
    ensures
        is_name("m"@) && is_name("kg"@) && is_name("s"@) && is_name("A"@) && is_name("K"@)
            && is_name("mol"@) && is_name("cd"@) && is_name("rad"@),
        units::resolved("m"@) == Some(
            Term { dims: base(1, 0, 0, 0, 0, 0, 0, 0), scale: Scale::Atom(one(), None) },
        ),
        units::resolved("kg"@) == Some(
            Term { dims: base(0, 1, 0, 0, 0, 0, 0, 0), scale: Scale::Atom(one(), None) },
        ),
        units::resolved("s"@) == Some(
            Term { dims: base(0, 0, 1, 0, 0, 0, 0, 0), scale: Scale::Atom(one(), None) },
        ),
        units::resolved("A"@) == Some(
            Term { dims: base(0, 0, 0, 1, 0, 0, 0, 0), scale: Scale::Atom(one(), None) },
        ),
        units::resolved("K"@) == Some(
            Term { dims: base(0, 0, 0, 0, 1, 0, 0, 0), scale: Scale::Atom(one(), None) },
        ),
        units::resolved("mol"@) == Some(
            Term { dims: base(0, 0, 0, 0, 0, 1, 0, 0), scale: Scale::Atom(one(), None) },
        ),
        units::resolved("cd"@) == Some(
            Term { dims: base(0, 0, 0, 0, 0, 0, 1, 0), scale: Scale::Atom(one(), None) },
        ),
        units::resolved("rad"@) == Some(
            Term { dims: base(0, 0, 0, 0, 0, 0, 0, 1), scale: Scale::Atom(one(), None) },
        ),
{
    reveal_strlit("pct");
    reveal_strlit("%");
    reveal_strlit("ppm");
    reveal_strlit("m");
    reveal_strlit("kg");
    reveal_strlit("s");
    reveal_strlit("A");
    reveal_strlit("K");
    reveal_strlit("mol");
    reveal_strlit("cd");
    reveal_strlit("rad");
    assert("pct"@.len() == 3 && "ppm"@.len() == 3 && "mol"@.len() == 3 && "rad"@.len() == 3);
    assert("%"@.len() == 1 && "m"@.len() == 1 && "s"@.len() == 1 && "A"@.len() == 1 && "K"@.len()
        == 1);
    assert("kg"@.len() == 2 && "cd"@.len() == 2);
    assert("pct"@[0] == 'p' && "ppm"@[0] == 'p' && "mol"@[0] == 'm' && "rad"@[0] == 'r');
    assert("%"@[0] == '%' && "m"@[0] == 'm' && "s"@[0] == 's' && "A"@[0] == 'A' && "K"@[0] == 'K');
    assert("kg"@[0] == 'k' && "cd"@[0] == 'c');
}

/// Dimensions of these exponents.
pub open spec fn base(
    m: i32,
    kg: i32,
    s: i32,
    a: i32,
    k: i32,
    mol: i32,
    cd: i32,
    rad: i32,
) -> Dims {
    Dims { m, kg, s, a, k, mol, cd, rad }
}

/// The text of dimensions in base units is read as those dimensions, without a
/// factor.
#[verifier::spinoff_prover]
#[verifier::rlimit(80)]
pub proof fn law_canonical_read(d: Dims)
    ensures
        units::unit_of(units::canonical(d)) matches Ok(u) && u.dims == d && plain_scale(u.scale),
{
    lemma_base_names();
    let s0 = Seq::<char>::empty();
    let d0 = base(0, 0, 0, 0, 0, 0, 0, 0);
    let s1 = units::base_text(s0, "m"@, d.m);
    let d1 = base(d.m, 0, 0, 0, 0, 0, 0, 0);
    lemma_base(s0, "m"@, d.m, d0, base(1, 0, 0, 0, 0, 0, 0, 0), d1);
    let s2 = units::base_text(s1, "kg"@, d.kg);
    let d2 = base(d.m, d.kg, 0, 0, 0, 0, 0, 0);
    lemma_base(s1, "kg"@, d.kg, d1, base(0, 1, 0, 0, 0, 0, 0, 0), d2);
    let s3 = units::base_text(s2, "s"@, d.s);
    let d3 = base(d.m, d.kg, d.s, 0, 0, 0, 0, 0);
    lemma_base(s2, "s"@, d.s, d2, base(0, 0, 1, 0, 0, 0, 0, 0), d3);
    let s4 = units::base_text(s3, "A"@, d.a);
    let d4 = base(d.m, d.kg, d.s, d.a, 0, 0, 0, 0);
    lemma_base(s3, "A"@, d.a, d3, base(0, 0, 0, 1, 0, 0, 0, 0), d4);
    let s5 = units::base_text(s4, "K"@, d.k);
    let d5 = base(d.m, d.kg, d.s, d.a, d.k, 0, 0, 0);
    lemma_base(s4, "K"@, d.k, d4, base(0, 0, 0, 0, 1, 0, 0, 0), d5);
    let s6 = units::base_text(s5, "mol"@, d.mol);
    let d6 = base(d.m, d.kg, d.s, d.a, d.k, d.mol, 0, 0);
    lemma_base(s5, "mol"@, d.mol, d5, base(0, 0, 0, 0, 0, 1, 0, 0), d6);
    let s7 = units::base_text(s6, "cd"@, d.cd);
    let d7 = base(d.m, d.kg, d.s, d.a, d.k, d.mol, d.cd, 0);
    lemma_base(s6, "cd"@, d.cd, d6, base(0, 0, 0, 0, 0, 0, 1, 0), d7);
    let s8 = units::base_text(s7, "rad"@, d.rad);
    lemma_base(s7, "rad"@, d.rad, d7, base(0, 0, 0, 0, 0, 0, 0, 1), d);
    assert(s8 == units::canonical(d));
    if s8.len() > 0 {
        lemma_bare(s8);
    } else {
        assert(units::trimmed(s8) =~= s8);
        assert(plain_scale(Scale::One));
    }
}

/// A unit with a prefix is the unit with the prefix's factor, wherever the whole
/// name is no unit itself and no earlier prefix makes it one.
pub proof fn law_prefixed(i: int, u: Seq<char>)
    requires
        0 <= i < 100,
        unittable::prefix_model(i) is Some,
        forall|j: int| 0 <= j < i ==> (#[trigger] unittable::prefix_model(j)) is Some,
        unittable::unit_named(u) is Some,
        ({
            let name = unittable::prefix_model(i)->Some_0.0 + u;
            &&& is_name(name)
            &&& is_name(u)
            &&& unittable::unit_named(name) is None
            &&& forall|j: int|
                0 <= j < i ==> {
                    let p = (#[trigger] unittable::prefix_model(j))->Some_0.0;
                    !(text::has_prefix(name, p) && unittable::unit_named(
                        name.subrange(p.len() as int, name.len() as int),
                    ) is Some)
                }
        }),
    ensures
        ({
            let (symbol, _, factor) = unittable::prefix_model(i)->0;
            units::unit_of(u) matches Ok(b) && (units::unit_of(symbol + u) matches Ok(p) && p.dims
                == b.dims && forall|f: u64| #[trigger]
                exponent(p.scale, f) == exponent(b.scale, f) + if f == factor {
                    1int
                } else {
                    0
                })
        }),
{
    let (symbol, long, factor) = unittable::prefix_model(i)->0;
    let name = symbol + u;
    let def = unittable::unit_named(u)->0;
    lemma_prefixed(name, u, i, 0);
    let t = Term { dims: def.dims, scale: Scale::Atom(def.scale, None) };
    let tp = Term { dims: def.dims, scale: Scale::Atom(def.scale, Some(factor)) };
    assert(units::resolved(u) == Some(t));
    assert(units::resolved(name) == Some(tp));
    lemma_name_read(u, t);
    lemma_name_read(name, tp);
    let b = units::unit_of(u)->Ok_0;
    let p = units::unit_of(name)->Ok_0;
    assert forall|f: u64| #[trigger] exponent(p.scale, f) == exponent(b.scale, f) + if f == factor {
        1int
    } else {
        0
    } by {
        lemma_raised(t, 1, f);
        lemma_raised(tp, 1, f);
    }
}

/// What a unit name alone is read as.
proof fn lemma_name_read(name: Seq<char>, t: Term)
    requires
        is_name(name),
        units::resolved(name) == Some(t),
    ensures
        units::raised(t, 1) matches Ok(v) && (units::unit_of(name) matches Ok(u) && u.dims == v.dims
            && v.dims == t.dims && u.scale == v.scale),
{
    lemma_raised(t, 1, 0);
    lemma_power_factor(name, 1, t);
    assert(power_text(name, 1) =~= name);
    lemma_bare(name);
    let v = units::raised(t, 1)->Ok_0;
    assert(v.dims == t.dims);
    assert(units::rest_at(name, name.len() as int, v) == Ok::<(Term, int), UnitFault>(
        (v, name.len() as int),
    ));
}

proof fn lemma_prefixed(name: Seq<char>, u: Seq<char>, i: int, k: nat)
    requires
        0 <= k <= i < 100,
        unittable::prefix_model(i) is Some,
        forall|j: int| 0 <= j < i ==> (#[trigger] unittable::prefix_model(j)) is Some,
        unittable::unit_named(u) is Some,
        name == unittable::prefix_model(i)->Some_0.0 + u,
        forall|j: int|
            0 <= j < i ==> {
                let p = (#[trigger] unittable::prefix_model(j))->Some_0.0;
                !(text::has_prefix(name, p) && unittable::unit_named(
                    name.subrange(p.len() as int, name.len() as int),
                ) is Some)
            },
    ensures
        units::prefixed(name, k) == Some(
            (unittable::unit_named(u)->0, unittable::prefix_model(i)->Some_0.2),
        ),
    decreases i - k,
{
    assert(unittable::prefix_model(k as int) is Some);
    if k < i {
        lemma_prefixed(name, u, i, k + 1);
    } else {
        let p = unittable::prefix_model(i)->Some_0.0;
        assert(name.subrange(0, p.len() as int) =~= p);
        assert(name.subrange(p.len() as int, name.len() as int) =~= u);
    }
}

/// Whether a scale is `x` powers of some base, where the factor `f` is `w(f)`
/// powers of it.
pub open spec fn amounts_to(s: Scale, w: spec_fn(u64) -> int, x: int) -> bool
    decreases s,
{
    match s {
        Scale::One => x == 0,
        Scale::Atom(u, p) => x == w(u) + match p {
            Some(f) => w(f),
            None => 0,
        },
        Scale::Product(a, b) => exists|y: int, z: int|
            #[trigger] amounts_to(*a, w, y) && #[trigger] amounts_to(*b, w, z) && x == y + z,
        Scale::Quotient(a, b) => exists|y: int, z: int|
            #[trigger] amounts_to(*a, w, y) && #[trigger] amounts_to(*b, w, z) && x == y - z,
        Scale::Power(a, n) => exists|y: int| #[trigger] amounts_to(*a, w, y) && x == n * y,
        Scale::Root(a, n) => amounts_to(*a, w, n * x),
    }
}

/// A unit is a root of another one: its scale, taken `n` times, is that of the
/// other one, and so are its dimensions, where they can be.
pub open spec fn is_root(u: UnitModel, n: int, r: UnitModel) -> bool {
    &&& u.dims.m as int % n == 0 && u.dims.kg as int % n == 0 && u.dims.s as int % n == 0
        && u.dims.a as int % n == 0 && u.dims.k as int % n == 0 && u.dims.mol as int % n == 0
        && u.dims.cd as int % n == 0 && u.dims.rad as int % n == 0 ==> dims_times(
        r.dims,
        n,
        u.dims,
    )
    &&& forall|w: spec_fn(u64) -> int, x: int| #[trigger]
        amounts_to(r.scale, w, x) == amounts_to(u.scale, w, n * x)
}

/// A root of a unit.
pub proof fn lemma_root(u: UnitModel, n: i32, r: UnitModel)
    requires
        n != 0,
        Some(r.dims) == units::dims_divided(u.dims, n as int),
        r.scale == Scale::Root(Box::new(u.scale), n),
    ensures
        is_root(u, n as int, r),
{
    lemma_exact(u.dims.m as int, n as int);
    lemma_exact(u.dims.kg as int, n as int);
    lemma_exact(u.dims.s as int, n as int);
    lemma_exact(u.dims.a as int, n as int);
    lemma_exact(u.dims.k as int, n as int);
    lemma_exact(u.dims.mol as int, n as int);
    lemma_exact(u.dims.cd as int, n as int);
    lemma_exact(u.dims.rad as int, n as int);
}

proof fn lemma_exact(d: int, n: int)
    requires
        n != 0,
    ensures
        d % n == 0 ==> (d / n) * n == d,
{
    vstd::arithmetic::div_mod::lemma_fundamental_div_mod(d, n);
    assert(n * (d / n) == (d / n) * n) by (nonlinear_arith);
}

/// A unit with a sign and a unit name behind it: the product for `.` and `*`,
/// the quotient for `/`, where the exponents stay in range.
#[verifier::spinoff_prover]
#[verifier::rlimit(80)]
pub proof fn law_named_product(x: Seq<char>, op: char, u: Seq<char>)
    requires
        bare(x),
        units::unit_of(x) is Ok,
        is_name(u),
        units::unit_of(u) is Ok,
        op == '.' || op == '*' || op == '/',
        ({
            let a = units::unit_of(x)->Ok_0;
            sum_fits(a.dims, units::unit_of(u)->Ok_0.dims, sign_of(op))
        }),
    ensures
        units::unit_of(x + seq![op] + u) matches Ok(c) && is_product(
            units::unit_of(x)->Ok_0,
            units::unit_of(u)->Ok_0,
            sign_of(op),
            c,
        ),
{
    let n = x.len() as int;
    let s = x + seq![op] + u;
    lemma_bare(x);
    lemma_bare(u);
    let (t, _) = units::expr_at(x, 0)->Ok_0;
    lemma_name_known(u);
    let d = units::resolved(u)->0;
    lemma_raised(d, 1, 0);
    lemma_power_factor(u, 1, d);
    assert(power_text(u, 1) =~= u);
    lemma_name_read(u, d);
    let v = units::raised(d, 1)->Ok_0;
    assert(s.subrange(0, n) =~= x);
    assert(s[n] == op);
    lemma_expr(s, 0, x, 0);
    assert(s.subrange(n + 1, n + 1 + u.len()) =~= u);
    lemma_factor(s, n + 1, u, 0);
    assert(s.len() == n + 1 + u.len());
    assert(s[0] == x[0] && s.last() == u.last());
    lemma_bare(s);
    let w = combined(t, v, op)->Ok_0;
    assert(units::rest_at(s, s.len() as int, w) == Ok::<(Term, int), UnitFault>(
        (w, s.len() as int),
    ));
    let a = units::unit_of(x)->Ok_0;
    let b = units::unit_of(u)->Ok_0;
    let c = units::unit_of(s)->Ok_0;
    assert forall|f: u64| #[trigger] exponent(c.scale, f) == exponent(a.scale, f) + sign_of(op)
        * exponent(b.scale, f) by {}
}

/// The displays of quotients and powers are read as what they display; so is
/// that of a product with a unit name.
pub proof fn law_displays_read(a: Seq<char>, b: Seq<char>, n: i32)
    requires
        bare(a),
        bare(b),
        units::unit_of(a) is Ok,
        units::unit_of(b) is Ok,
    ensures
        ({
            let x = units::unit_of(a)->Ok_0;
            let y = units::unit_of(b)->Ok_0;
            &&& sum_fits(x.dims, y.dims, -1) ==> (units::unit_of(
                units::quotient_display(a, b),
            ) matches Ok(c) && is_product(x, y, -1, c))
            &&& dims_fit(x.dims, n as int) ==> (units::unit_of(
                "("@ + a + ")"@ + text::decimal(n as int),
            ) matches Ok(c) && is_power(x, n as int, c))
            &&& is_name(b) && sum_fits(x.dims, y.dims, 1) ==> (units::unit_of(
                units::product_display(a, b),
            ) matches Ok(c) && is_product(x, y, 1, c))
        }),
{
    reveal_strlit("/(");
    reveal_strlit("(");
    reveal_strlit(")");
    reveal_strlit(".");
    assert("/("@ =~= seq!['/', '(']);
    assert("("@ =~= seq!['(']);
    assert(")"@ =~= seq![')']);
    assert("."@ =~= seq!['.']);
    let x = units::unit_of(a)->Ok_0;
    let y = units::unit_of(b)->Ok_0;
    law_product_text(a, '/', b);
    law_group_power(a, n, 0);
    if is_name(b) && sum_fits(x.dims, y.dims, 1) {
        law_named_product(a, '.', b);
    }
}

/// A name that is read as a unit is a unit of the table, prefixed or not.
proof fn lemma_name_known(u: Seq<char>)
    requires
        is_name(u),
        units::unit_of(u) is Ok,
    ensures
        units::resolved(u) is Some,
{
    lemma_bare(u);
    lemma_not_open(u[0]);
    lemma_name_end(u, u.len() as int, 0);
    assert(u.subrange(0, u.len() as int) =~= u);
}

} // verus!
