//! Text: UTF-8 conversion, prefixes, decimal numbers and JSON string literals.
use vstd::prelude::*;
use vstd::utf8::*;

verus! {

/// What `String::from_utf8_lossy` makes of arbitrary bytes: every invalid
/// sequence is replaced by U+FFFD.
pub uninterp spec fn lossy_chars(bytes: Seq<u8>) -> Seq<char>;

/// `String::from_utf8`: the text that `bytes` encode, or `None` exactly when
/// they are not valid UTF-8.
#[verifier::external_body]
pub(crate) fn utf8_text(bytes: Vec<u8>) -> (r: Option<String>)
    ensures
        match r {
            Some(s) => valid_utf8(bytes@) && s@ == decode_utf8(bytes@),
            None => !valid_utf8(bytes@),
        },
{
    String::from_utf8(bytes).ok()
}

/// `String::from_utf8_lossy`: a function of the bytes alone, which is plain
/// decoding when they are valid UTF-8.
#[verifier::external_body]
pub(crate) fn lossy_text(bytes: &[u8]) -> (r: String)
    ensures
        r@ == lossy_chars(bytes@),
        valid_utf8(bytes@) ==> r@ == decode_utf8(bytes@),
{
    String::from_utf8_lossy(bytes).into_owned()
}

/// The text of arbitrary bytes: plain decoding when they are valid UTF-8.
pub open spec fn lossy(bytes: Seq<u8>) -> Seq<char> {
    if valid_utf8(bytes) {
        decode_utf8(bytes)
    } else {
        lossy_chars(bytes)
    }
}

/// `String::push`: appends one character.
pub assume_specification[ std::string::String::push ](s: &mut std::string::String, c: char)
    ensures
        final(s)@ == old(s)@.push(c),
;

/// The UTF-8 bytes of a text.
pub open spec fn text_bytes(s: Seq<char>) -> Seq<u8> {
    encode_utf8(s)
}

/// Decoding the UTF-8 bytes of a text gives the text back.
pub proof fn law_text_round_trip(s: Seq<char>)
    ensures
        valid_utf8(text_bytes(s)),
        decode_utf8(text_bytes(s)) == s,
{
    encode_utf8_valid_utf8(s);
    encode_utf8_decode_utf8(s);
}

/// The UTF-8 bytes of `s`.
pub fn bytes_of(s: &str) -> (r: Vec<u8>)
    ensures
        r@ == text_bytes(s@),
{
    vstd::slice::slice_to_vec(s.as_bytes())
}

/// Whether two texts are equal.
pub fn text_eq(a: &str, b: &str) -> (r: bool)
    ensures
        r == (a@ == b@),
{
    let x = a.as_bytes();
    let y = b.as_bytes();
    proof {
        law_text_round_trip(a@);
        law_text_round_trip(b@);
    }
    bytes_eq(x, y)
}

/// Whether two byte strings are equal.
pub fn bytes_eq(x: &[u8], y: &[u8]) -> (r: bool)
    ensures
        r == (x@ == y@),
{
    if x.len() != y.len() {
        return false;
    }
    let mut i: usize = 0;
    while i < x.len()
        invariant
            i <= x@.len(),
            x@.len() == y@.len(),
            forall|k: int| 0 <= k < i ==> x@[k] == y@[k],
        decreases x@.len() - i,
    {
        if x[i] != y[i] {
            return false;
        }
        i = i + 1;
    }
    assert(x@ =~= y@);
    true
}

/// Whether `s` begins with `prefix`.
pub open spec fn has_prefix(s: Seq<char>, prefix: Seq<char>) -> bool {
    prefix.len() <= s.len() && s.subrange(0, prefix.len() as int) == prefix
}

/// Whether `s` begins with `prefix`.
pub fn starts_with(s: &str, prefix: &str) -> (r: bool)
    ensures
        r == has_prefix(s@, prefix@),
{
    let n: usize = prefix.unicode_len();
    if n > s.unicode_len() {
        return false;
    }
    let mut i: usize = 0;
    while i < n
        invariant
            i <= n,
            n == prefix@.len(),
            n <= s@.len(),
            forall|k: int| 0 <= k < i ==> s@[k] == prefix@[k],
        decreases n - i,
    {
        if s.get_char(i) != prefix.get_char(i) {
            assert(s@.subrange(0, prefix@.len() as int)[i as int] != prefix@[i as int]);
            return false;
        }
        i = i + 1;
    }
    assert(s@.subrange(0, prefix@.len() as int) =~= prefix@);
    true
}

/// The decimal digit `d`.
pub open spec fn digit_char(d: nat) -> char {
    if d == 0 {
        '0'
    } else if d == 1 {
        '1'
    } else if d == 2 {
        '2'
    } else if d == 3 {
        '3'
    } else if d == 4 {
        '4'
    } else if d == 5 {
        '5'
    } else if d == 6 {
        '6'
    } else if d == 7 {
        '7'
    } else if d == 8 {
        '8'
    } else {
        '9'
    }
}

/// A natural number in decimal, without leading zeros.
pub open spec fn decimal_nat(n: nat) -> Seq<char>
    decreases n,
{
    if n < 10 {
        seq![digit_char(n)]
    } else {
        decimal_nat(n / 10).push(digit_char(n % 10))
    }
}

/// An integer in decimal, with a leading minus sign when negative.
pub open spec fn decimal(i: int) -> Seq<char> {
    if i < 0 {
        seq!['-'] + decimal_nat((-i) as nat)
    } else {
        decimal_nat(i as nat)
    }
}

/// Whether a character is a decimal digit.
pub open spec fn is_digit(c: char) -> bool {
    c == '0' || c == '1' || c == '2' || c == '3' || c == '4' || c == '5' || c == '6' || c == '7' || c
        == '8' || c == '9'
}

/// A number in decimal is a row of digits.
pub proof fn lemma_decimal_digits(n: nat)
    ensures
        decimal_nat(n).len() > 0,
        forall|i: int| 0 <= i < decimal_nat(n).len() ==> is_digit(#[trigger] decimal_nat(n)[i]),
    decreases n,
{
    if n >= 10 {
        lemma_decimal_digits(n / 10);
    }
}

proof fn lemma_digits_distinct(a: nat, b: nat)
    requires
        a < 10,
        b < 10,
        digit_char(a) == digit_char(b),
    ensures
        a == b,
{
}

/// Different numbers have different texts.
pub proof fn law_decimal_distinct(a: nat, b: nat)
    requires
        decimal_nat(a) == decimal_nat(b),
    ensures
        a == b,
    decreases a,
{
    if a < 10 && b < 10 {
        assert(decimal_nat(a)[0] == digit_char(a));
        assert(decimal_nat(b)[0] == digit_char(b));
        lemma_digits_distinct(a, b);
    } else if a < 10 {
        lemma_decimal_digits(b / 10);
        assert(decimal_nat(b).len() > 1);
        assert(decimal_nat(a).len() == 1);
    } else if b < 10 {
        lemma_decimal_digits(a / 10);
        assert(decimal_nat(a).len() > 1);
        assert(decimal_nat(b).len() == 1);
    } else {
        let x = decimal_nat(a);
        let y = decimal_nat(b);
        assert(x.drop_last() =~= decimal_nat(a / 10));
        assert(y.drop_last() =~= decimal_nat(b / 10));
        assert(x.last() == digit_char(a % 10));
        assert(y.last() == digit_char(b % 10));
        law_decimal_distinct(a / 10, b / 10);
        lemma_digits_distinct(a % 10, b % 10);
    }
}

/// `true` or `false`.
pub open spec fn bool_text(b: bool) -> Seq<char> {
    if b {
        "true"@
    } else {
        "false"@
    }
}

fn digit(d: u64) -> (r: char)
    requires
        d < 10,
    ensures
        r == digit_char(d as nat),
{
    if d == 0 {
        '0'
    } else if d == 1 {
        '1'
    } else if d == 2 {
        '2'
    } else if d == 3 {
        '3'
    } else if d == 4 {
        '4'
    } else if d == 5 {
        '5'
    } else if d == 6 {
        '6'
    } else if d == 7 {
        '7'
    } else if d == 8 {
        '8'
    } else {
        '9'
    }
}

/// Append `v` in decimal.
pub fn push_u64(out: &mut String, v: u64)
    ensures
        final(out)@ == old(out)@ + decimal(v as int),
    decreases v,
{
    if v < 10 {
        out.push(digit(v));
        assert(out@ =~= old(out)@ + decimal(v as int));
    } else {
        push_u64(out, v / 10);
        out.push(digit(v % 10));
        assert(out@ =~= old(out)@ + decimal(v as int));
    }
}

/// Append `v` in decimal.
pub fn push_i64(out: &mut String, v: i64)
    ensures
        final(out)@ == old(out)@ + decimal(v as int),
{
    if v < 0 {
        out.push('-');
        let m: u64 = (-(v as i128)) as u64;
        push_u64(out, m);
        assert(out@ =~= old(out)@ + decimal(v as int));
    } else {
        push_u64(out, v as u64);
    }
}

/// Append `true` or `false`.
pub fn push_bool(out: &mut String, b: bool)
    ensures
        final(out)@ == old(out)@ + bool_text(b),
{
    if b {
        out.append("true");
    } else {
        out.append("false");
    }
}

/// One character inside a JSON string literal: quotes and backslashes are
/// escaped, everything else stands for itself.
pub open spec fn json_char(c: char) -> Seq<char> {
    if c == '"' {
        seq!['\\', '"']
    } else if c == '\\' {
        seq!['\\', '\\']
    } else {
        seq![c]
    }
}

/// The characters of `s`, each as it stands in a JSON string literal.
pub open spec fn json_body(s: Seq<char>) -> Seq<char>
    decreases s.len(),
{
    if s.len() == 0 {
        Seq::empty()
    } else {
        json_body(s.drop_last()) + json_char(s.last())
    }
}

/// `s` as a JSON string literal.
pub open spec fn json_text(s: Seq<char>) -> Seq<char> {
    seq!['"'] + json_body(s) + seq!['"']
}

/// Append `s` as a JSON string literal.
pub fn push_json_string(out: &mut String, s: &str)
    ensures
        final(out)@ == old(out)@ + json_text(s@),
{
    out.push('"');
    let ghost start = out@;
    proof {
        assert(s@.subrange(0, 0) =~= Seq::<char>::empty());
        assert(start + json_body(s@.subrange(0, 0)) =~= start);
    }
    for c in it: s.chars()
        invariant
            it.seq() == s@,
            out@ == start + json_body(s@.subrange(0, it.index() as int)),
    {
        let ghost i = it.index() as int;
        let ghost before = out@;
        if c == '"' {
            out.push('\\');
            out.push('"');
        } else if c == '\\' {
            out.push('\\');
            out.push('\\');
        } else {
            out.push(c);
        }
        proof {
            let t = s@.subrange(0, i + 1);
            assert(t.drop_last() =~= s@.subrange(0, i));
            assert(t.last() == s@[i]);
            assert(out@ =~= before + json_char(c));
            assert(out@ =~= start + json_body(t));
        }
    }
    assert(s@.subrange(0, s@.len() as int) =~= s@);
    out.push('"');
    assert(out@ =~= old(out)@ + json_text(s@));
}

/// `s` as a JSON string literal.
pub fn json_string(s: &str) -> (r: String)
    ensures
        r@ == json_text(s@),
{
    let mut out = String::new();
    push_json_string(&mut out, s);
    assert(out@ =~= json_text(s@));
    out
}

/// What the inside of a JSON string literal stands for: a backslash makes the
/// next character stand for itself, and no quote is left bare.
pub open spec fn unescaped(t: Seq<char>) -> Option<Seq<char>>
    decreases t.len(),
{
    if t.len() == 0 {
        Some(Seq::empty())
    } else if t[0] == '"' {
        None
    } else if t[0] == '\\' {
        if t.len() < 2 {
            None
        } else {
            match unescaped(t.subrange(2, t.len() as int)) {
                Some(r) => Some(seq![t[1]] + r),
                None => None,
            }
        }
    } else {
        match unescaped(t.subrange(1, t.len() as int)) {
            Some(r) => Some(seq![t[0]] + r),
            None => None,
        }
    }
}

proof fn lemma_unescaped_push(t: Seq<char>, c: char)
    requires
        unescaped(t) is Some,
    ensures
        unescaped(t + json_char(c)) == Some(unescaped(t)->0.push(c)),
    decreases t.len(),
{
    let x = json_char(c);
    if t.len() == 0 {
        assert(t + x =~= x);
        assert(x.subrange(x.len() as int, x.len() as int) =~= Seq::<char>::empty());
        assert(unescaped(Seq::<char>::empty()) == Some(Seq::<char>::empty()));
        assert(seq![c] + Seq::<char>::empty() =~= Seq::<char>::empty().push(c));
    } else {
        let k: int = if t[0] == '\\' {
            2
        } else {
            1
        };
        let rest = t.subrange(k, t.len() as int);
        lemma_unescaped_push(rest, c);
        assert((t + x).subrange(k, (t + x).len() as int) =~= rest + x);
        let r = unescaped(rest)->0;
        assert((seq![t[k - 1]] + r).push(c) =~= seq![t[k - 1]] + r.push(c));
    }
}

/// A text as a JSON string literal is read back: between its quotes it stands
/// for the text.
pub proof fn law_json_text(s: Seq<char>)
    ensures
        json_text(s).len() >= 2,
        json_text(s)[0] == '"',
        json_text(s).last() == '"',
        unescaped(json_text(s).subrange(1, json_text(s).len() - 1)) == Some(s),
    decreases s.len(),
{
    let b = json_body(s);
    assert(json_text(s).subrange(1, json_text(s).len() - 1) =~= b);
    if s.len() > 0 {
        let f = s.drop_last();
        law_json_text(f);
        assert(json_text(f).subrange(1, json_text(f).len() - 1) =~= json_body(f));
        lemma_unescaped_push(json_body(f), s.last());
        assert(f.push(s.last()) =~= s);
    }
}

} // verus!
