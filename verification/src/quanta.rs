//! Quantity texts: splitting a number from its unit, and the notation of
//! numbers with a number of significant digits.
use crate::calendar;
use crate::calendar::push_padded;
use crate::units;
use crate::units::{chars_of, text_of, trim};
use vstd::prelude::*;

verus! {

/// A character of a number: a digit, a point, an exponent sign.
pub open spec fn number_char(c: char) -> bool {
    '0' <= c <= '9' || c == '.' || c == 'e' || c == 'E' || c == 'x'
}

/// The first position from `i` on that holds no character of a number.
pub open spec fn number_end(s: Seq<char>, i: int) -> int
    decreases s.len() - i,
{
    if 0 <= i < s.len() && number_char(s[i]) {
        number_end(s, i + 1)
    } else {
        i
    }
}

/// The number at the start of a text, with its sign, and the unit after it.
pub open spec fn split(s: Seq<char>) -> Option<(Seq<char>, Seq<char>)> {
    let t = units::trimmed(s);
    let start: int = if t.len() > 0 && (t[0] == '-' || t[0] == '+') {
        1
    } else {
        0
    };
    let end = number_end(t, start);
    if end == start {
        None
    } else {
        Some((t.subrange(0, end), units::trimmed(t.subrange(end, t.len() as int))))
    }
}

/// Split a quantity text (`"1.5 Jy"`, `"1.5Jy"`, `"2deg"`) into the text of
/// its number and its unit.
pub fn split_quantity_string(s: &str) -> (r: Option<(String, String)>)
    ensures
        match r {
            Some((n, u)) => split(s@) == Some((n@, u@)),
            None => split(s@) is None,
        },
{
    let t = trim(s);
    let cs = chars_of(t.as_str());
    let n: usize = cs.len();
    let start: usize = if n > 0 && (cs[0] == '-' || cs[0] == '+') {
        1
    } else {
        0
    };
    let mut i: usize = start;
    while i < n && (('0' <= cs[i] && cs[i] <= '9') || cs[i] == '.' || cs[i] == 'e' || cs[i] == 'E'
        || cs[i] == 'x')
        invariant
            start <= i <= n,
            n == cs@.len(),
            number_end(cs@, start as int) == number_end(cs@, i as int),
        decreases n - i,
    {
        i = i + 1;
    }
    if i == start {
        return None;
    }
    let number = text_of(&cs, 0, i);
    let rest = text_of(&cs, i, n);
    Some((number, trim(rest.as_str())))
}

/// Whether a number with an exponent of ten is written without it, with
/// `prec` significant digits.
pub fn is_fixed(exponent: i64, prec: u64) -> (r: bool)
    ensures
        r == (-4 <= exponent < prec),
{
    exponent >= -4 && (exponent < 0 || (exponent as u64) < prec)
}

/// The position after the last character before `i` that is not zero.
pub open spec fn zeros_start(s: Seq<char>, i: int) -> int
    decreases i,
{
    if 0 < i <= s.len() && s[i - 1] == '0' {
        zeros_start(s, i - 1)
    } else {
        i
    }
}

/// A number without the zeros after its decimal point, and without a point
/// that nothing follows.
pub open spec fn without_zeros(s: Seq<char>) -> Seq<char> {
    if !s.contains('.') {
        s
    } else {
        let z = zeros_start(s, s.len() as int);
        if z > 0 && s[z - 1] == '.' {
            s.subrange(0, z - 1)
        } else {
            s.subrange(0, z)
        }
    }
}

fn strip_zeros(s: &str) -> (r: String)
    ensures
        r@ == without_zeros(s@),
{
    let cs = chars_of(s);
    let n: usize = cs.len();
    let mut point: bool = false;
    let mut i: usize = 0;
    while i < n
        invariant
            i <= n,
            n == cs@.len(),
            point == exists|k: int| 0 <= k < i && #[trigger] cs@[k] == '.',
        decreases n - i,
    {
        if cs[i] == '.' {
            point = true;
            assert(cs@[i as int] == '.');
        }
        i = i + 1;
    }
    assert(point == s@.contains('.'));
    if !point {
        assert(s@.subrange(0, n as int) =~= s@);
        return text_of(&cs, 0, n);
    }
    let mut z: usize = n;
    while z > 0 && cs[z - 1] == '0'
        invariant
            z <= n,
            n == cs@.len(),
            zeros_start(cs@, n as int) == zeros_start(cs@, z as int),
        decreases z,
    {
        z = z - 1;
    }
    if z > 0 && cs[z - 1] == '.' {
        text_of(&cs, 0, z - 1)
    } else {
        text_of(&cs, 0, z)
    }
}

/// A number without an exponent.
pub open spec fn fixed(negative: bool, number: Seq<char>) -> Seq<char> {
    (if negative {
        "-"@
    } else {
        Seq::empty()
    }) + without_zeros(number)
}

/// A number with an exponent of at least two digits.
pub open spec fn scientific(negative: bool, mantissa: Seq<char>, exponent: int) -> Seq<char> {
    fixed(negative, mantissa) + (if exponent < 0 {
        "e-"@
    } else {
        "e+"@
    }) + calendar::padded(
        (if exponent < 0 {
            -exponent
        } else {
            exponent
        }) as nat,
        2,
    )
}

/// A number without an exponent, from its digits.
pub fn fixed_text(negative: bool, number: &str) -> (r: String)
    ensures
        r@ == fixed(negative, number@),
{
    let mut s: String = String::new();
    if negative {
        s.append("-");
    }
    let digits = strip_zeros(number);
    s.append(digits.as_str());
    assert(s@ =~= fixed(negative, number@));
    s
}

/// A number with an exponent, from the digits of its mantissa.
pub fn scientific_text(negative: bool, mantissa: &str, exponent: i32) -> (r: String)
    ensures
        r@ == scientific(negative, mantissa@, exponent as int),
{
    let mut s = fixed_text(negative, mantissa);
    let size: u64 = if exponent < 0 {
        s.append("e-");
        (-(exponent as i64)) as u64
    } else {
        s.append("e+");
        exponent as u64
    };
    push_padded(&mut s, size, 2);
    assert(s@ =~= scientific(negative, mantissa@, exponent as int));
    s
}

proof fn lemma_number_end(s: Seq<char>, i: int)
    requires
        0 <= i <= s.len(),
    ensures
        i <= number_end(s, i) <= s.len(),
        forall|k: int| i <= k < number_end(s, i) ==> number_char(#[trigger] s[k]),
        number_end(s, i) < s.len() ==> !number_char(s[number_end(s, i)]),
    decreases s.len() - i,
{
    if i < s.len() && number_char(s[i]) {
        lemma_number_end(s, i + 1);
    }
}

/// A quantity text is its number, blanks, and its unit, with blanks around
/// them. The number is a sign, where there is one, and then the longest row of
/// digits, points and exponent marks; the unit has no blanks at its ends. There
/// is no quantity where no such row is at the start.
pub proof fn law_split(s: Seq<char>) -> (gaps: (Seq<char>, Seq<char>, Seq<char>))
    ensures
        match split(s) {
            Some((n, u)) => {
                let start: int = if n[0] == '-' || n[0] == '+' {
                    1
                } else {
                    0
                };
                &&& s == gaps.0 + n + gaps.1 + u + gaps.2
                &&& units::all_blank(gaps.0) && units::all_blank(gaps.1) && units::all_blank(gaps.2)
                &&& n.len() > start
                &&& forall|k: int| start <= k < n.len() ==> number_char(#[trigger] n[k])
                &&& gaps.1.len() == 0 && u.len() > 0 ==> !number_char(u[0])
                &&& u.len() > 0 ==> !units::blank(u[0]) && !units::blank(u.last())
            },
            None => {
                let t = units::trimmed(s);
                let start: int = if t.len() > 0 && (t[0] == '-' || t[0] == '+') {
                    1
                } else {
                    0
                };
                t.len() == start || !number_char(t[start])
            },
        },
{
    let t = units::trimmed(s);
    let start: int = if t.len() > 0 && (t[0] == '-' || t[0] == '+') {
        1
    } else {
        0
    };
    let end = number_end(t, start);
    lemma_number_end(t, start);
    let (a, b) = units::law_trimmed(s);
    if end == start {
        (a, Seq::empty(), b)
    } else {
        let n = t.subrange(0, end);
        let rest = t.subrange(end, t.len() as int);
        let (c, d) = units::law_trimmed(rest);
        let u = units::trimmed(rest);
        assert(n[0] == t[0]);
        assert(t =~= n + rest);
        assert(s =~= a + n + c + u + (d + b));
        assert(units::all_blank(d + b));
        if c.len() == 0 && u.len() > 0 {
            assert(rest[0] == u[0]);
        }
        assert forall|k: int| start <= k < n.len() implies number_char(#[trigger] n[k]) by {
            assert(n[k] == t[k]);
        }
        (a, c, d + b)
    }
}

proof fn lemma_zeros_start(s: Seq<char>, i: int)
    requires
        0 <= i <= s.len(),
    ensures
        0 <= zeros_start(s, i) <= i,
        forall|k: int| zeros_start(s, i) <= k < i ==> #[trigger] s[k] == '0',
        zeros_start(s, i) > 0 ==> s[zeros_start(s, i) - 1] != '0',
    decreases i,
{
    if 0 < i && s[i - 1] == '0' {
        lemma_zeros_start(s, i - 1);
    }
}

/// A number loses the zeros at its end and then a point, if it has a point at
/// all; nothing else. What is left of one with a point ends in neither.
pub proof fn law_without_zeros(s: Seq<char>) -> (tail: Seq<char>)
    ensures
        s == without_zeros(s) + tail,
        !s.contains('.') ==> tail.len() == 0,
        tail.len() > 0 ==> tail[0] == '.' || tail[0] == '0',
        forall|k: int| 1 <= k < tail.len() ==> #[trigger] tail[k] == '0',
        s.contains('.') && without_zeros(s).len() > 0 ==> {
            &&& without_zeros(s).last() == '0' ==> tail.len() > 0 && tail[0] == '.'
            &&& without_zeros(s).last() == '.' ==> tail.len() > 0 && tail[0] == '.'
        },
{
    let z = zeros_start(s, s.len() as int);
    lemma_zeros_start(s, s.len() as int);
    let n = without_zeros(s).len() as int;
    let tail = s.subrange(n, s.len() as int);
    assert(s =~= without_zeros(s) + tail);
    assert forall|k: int| 1 <= k < tail.len() implies #[trigger] tail[k] == '0' by {
        assert(tail[k] == s[n + k]);
    }
    tail
}

/// A number with an exponent is the digits of its mantissa behind its sign,
/// then `e`, the exponent's sign, and at least two digits that stand for its
/// size.
pub proof fn law_scientific(negative: bool, mantissa: Seq<char>, exponent: int) -> (r: (
    Seq<char>,
    Seq<char>,
))
    ensures
        ({
            let (front, digits) = r;
            &&& scientific(negative, mantissa, exponent) == front + seq![
                'e',
                if exponent < 0 {
                    '-'
                } else {
                    '+'
                },
            ] + digits
            &&& front == (if negative {
                seq!['-']
            } else {
                Seq::empty()
            }) + without_zeros(mantissa)
            &&& front == fixed(negative, mantissa)
            &&& digits.len() >= 2
            &&& forall|i: int| 0 <= i < digits.len() ==> crate::text::is_digit(#[trigger] digits[i])
            &&& calendar::number_of(digits) == exponent || calendar::number_of(digits) == -exponent
        }),
{
    reveal_strlit("-");
    reveal_strlit("e-");
    reveal_strlit("e+");
    let size = (if exponent < 0 {
        -exponent
    } else {
        exponent
    }) as nat;
    calendar::law_padded(size, 2);
    assert("-"@ =~= seq!['-']);
    assert("e-"@ =~= seq!['e', '-']);
    assert("e+"@ =~= seq!['e', '+']);
    (fixed(negative, mantissa), calendar::padded(size, 2))
}

} // verus!
