//! Directory names as texts: lexical normalisation and subtable links.
use crate::text::starts_with;
use vstd::prelude::*;

verus! {

/// Whether a name is absolute.
pub open spec fn absolute(s: Seq<char>) -> bool {
    s.len() > 0 && s[0] == '/'
}

/// The list of components with one more: empty ones and `.` are passed over,
/// and `..` takes the last one back.
pub open spec fn settle(stack: Seq<Seq<char>>, part: Seq<char>) -> Seq<Seq<char>> {
    if part.len() == 0 || part == seq!['.'] {
        stack
    } else if part == seq!['.', '.'] {
        if stack.len() > 0 {
            stack.drop_last()
        } else {
            stack
        }
    } else {
        stack.push(part)
    }
}

/// The components of `s` from `i` on, after `stack` and the beginning `part`
/// of a component.
pub open spec fn walk(s: Seq<char>, i: int, part: Seq<char>, stack: Seq<Seq<char>>) -> Seq<
    Seq<char>,
>
    decreases s.len() - i,
{
    if i >= s.len() {
        settle(stack, part)
    } else if s[i] == '/' {
        walk(s, i + 1, Seq::empty(), settle(stack, part))
    } else {
        walk(s, i + 1, part.push(s[i]), stack)
    }
}

/// The components of `s`.
pub open spec fn components(s: Seq<char>) -> Seq<Seq<char>> {
    walk(s, 0, Seq::empty(), Seq::empty())
}

/// Components joined by slashes.
pub open spec fn joined(stack: Seq<Seq<char>>) -> Seq<char>
    decreases stack.len(),
{
    if stack.len() == 0 {
        Seq::empty()
    } else if stack.len() == 1 {
        stack[0]
    } else {
        joined(stack.drop_last()) + seq!['/'] + stack.last()
    }
}

/// A name without `.` and `..` components.
pub open spec fn normalized(s: Seq<char>) -> Seq<char> {
    (if absolute(s) {
        seq!['/']
    } else {
        Seq::empty()
    }) + joined(components(s))
}

fn chars_of(s: &str) -> (r: Vec<char>)
    ensures
        r@ == s@,
{
    let mut out: Vec<char> = Vec::new();
    for c in it: s.chars()
        invariant
            it.seq() == s@,
            out@ == s@.subrange(0, it.index() as int),
    {
        out.push(c);
        assert(out@ =~= s@.subrange(0, it.index() + 1));
    }
    assert(s@.subrange(0, s@.len() as int) =~= s@);
    out
}

pub(crate) fn push_chars(out: &mut String, part: &[char])
    ensures
        final(out)@ == old(out)@ + part@,
{
    let ghost start = out@;
    let mut i: usize = 0;
    assert(start + part@.subrange(0, 0) =~= start);
    while i < part.len()
        invariant
            i <= part@.len(),
            out@ == start + part@.subrange(0, i as int),
        decreases part@.len() - i,
    {
        out.push(part[i]);
        i = i + 1;
        assert(out@ =~= start + part@.subrange(0, i as int));
    }
    assert(part@.subrange(0, part@.len() as int) =~= part@);
}

spec fn parts(s: Seq<Vec<char>>) -> Seq<Seq<char>> {
    s.map_values(|v: Vec<char>| v@)
}

fn settle_part(stack: &mut Vec<Vec<char>>, part: Vec<char>)
    ensures
        parts(final(stack)@) == settle(parts(old(stack)@), part@),
{
    let n: usize = part.len();
    if n == 0 || (n == 1 && part[0] == '.') {
        proof {
            if n == 1 {
                assert(part@ =~= seq!['.']);
            }
        }
        return;
    }
    if n == 2 && part[0] == '.' && part[1] == '.' {
        assert(part@ =~= seq!['.', '.']);
        if stack.len() > 0 {
            let _ = stack.pop();
            assert(parts(stack@) =~= parts(old(stack)@).drop_last());
        }
        return;
    }
    stack.push(part);
    assert(parts(stack@) =~= parts(old(stack)@).push(part@));
}

fn joined_text(out: &mut String, stack: &Vec<Vec<char>>)
    ensures
        final(out)@ == old(out)@ + joined(parts(stack@)),
{
    let ghost start = out@;
    let ghost all = parts(stack@);
    let mut i: usize = 0;
    assert(all.take(0) =~= Seq::<Seq<char>>::empty());
    assert(start + joined(all.take(0)) =~= start);
    while i < stack.len()
        invariant
            i <= stack@.len(),
            all == parts(stack@),
            out@ == start + joined(all.take(i as int)),
        decreases stack@.len() - i,
    {
        let ghost before = out@;
        if i > 0 {
            out.push('/');
        }
        push_chars(out, stack[i].as_slice());
        proof {
            let t = all.take(i + 1);
            assert(t.drop_last() =~= all.take(i as int));
            assert(t.last() == stack@[i as int]@);
            if i == 0 {
                assert(t.len() == 1);
                assert(out@ =~= start + joined(t));
            } else {
                assert(out@ =~= start + joined(t));
            }
        }
        i = i + 1;
    }
    assert(all.take(stack@.len() as int) =~= all);
}

/// Strip `.` components and resolve `..` without touching the filesystem.
pub fn lexical_normalize(path: &str) -> (r: String)
    ensures
        r@ == normalized(path@),
{
    let s = chars_of(path);
    let mut stack: Vec<Vec<char>> = Vec::new();
    let mut part: Vec<char> = Vec::new();
    let mut i: usize = 0;
    assert(parts(stack@) =~= Seq::<Seq<char>>::empty());
    assert(part@ =~= Seq::<char>::empty());
    while i < s.len()
        invariant
            i <= s@.len(),
            components(s@) == walk(s@, i as int, part@, parts(stack@)),
        decreases s@.len() - i,
    {
        let c: char = s[i];
        if c == '/' {
            settle_part(&mut stack, part);
            part = Vec::new();
        } else {
            part.push(c);
        }
        i = i + 1;
    }
    settle_part(&mut stack, part);
    let mut out = String::new();
    if s.len() > 0 && s[0] == '/' {
        out.push('/');
    }
    joined_text(&mut out, &stack);
    assert(out@ =~= normalized(path@));
    out
}

/// A name seen from the directory `base`: an absolute name stands for
/// itself.
pub open spec fn seen_from(base: Seq<char>, name: Seq<char>) -> Seq<char> {
    if absolute(name) {
        name
    } else if base.len() > 0 && base.last() != '/' {
        base + seq!['/'] + name
    } else {
        base + name
    }
}

/// A name, resolved against a directory.
pub open spec fn resolved(name: Seq<char>, base: Seq<char>) -> Seq<char> {
    normalized(seen_from(base, name))
}

pub fn is_absolute(s: &str) -> (r: bool)
    ensures
        r == absolute(s@),
{
    s.unicode_len() > 0 && s.get_char(0) == '/'
}

fn ends_with_slash(s: &str) -> (r: bool)
    ensures
        r == (s@.len() > 0 && s@.last() == '/'),
{
    let n: usize = s.unicode_len();
    n > 0 && s.get_char(n - 1) == '/'
}

/// Resolve a name against a directory, lexically.
pub fn resolve_name(name: &str, base: &str) -> (r: String)
    ensures
        r@ == resolved(name@, base@),
{
    if is_absolute(name) {
        return lexical_normalize(name);
    }
    let mut s: String = base.to_owned();
    if base.unicode_len() > 0 && !ends_with_slash(base) {
        s.push('/');
    }
    s.append(name);
    assert(s@ =~= seen_from(base@, name@));
    lexical_normalize(s.as_str())
}

/// The table directory as an absolute name, given the working directory
/// where it is known.
pub open spec fn absolute_name(dir: Seq<char>, cwd: Option<Seq<char>>) -> Seq<char> {
    if absolute(dir) {
        normalized(dir)
    } else {
        match cwd {
            Some(c) => resolved(dir, c),
            None => dir,
        }
    }
}

/// The table directory as an absolute name, lexically normalised. A relative
/// name is seen from the working directory `cwd`, and kept where that is not
/// known.
pub fn absolute_dir(dir: &str, cwd: Option<&str>) -> (r: String)
    ensures
        r@ == absolute_name(
            dir@,
            match cwd {
                Some(c) => Some(c@),
                None => None,
            },
        ),
{
    if is_absolute(dir) {
        return lexical_normalize(dir);
    }
    match cwd {
        Some(c) => resolve_name(dir, c),
        None => dir.to_owned(),
    }
}

/// The position of the last slash before `n`, or -1.
pub open spec fn last_slash(s: Seq<char>, n: int) -> int
    decreases n,
{
    if n <= 0 {
        -1
    } else if s[n - 1] == '/' {
        n - 1
    } else {
        last_slash(s, n - 1)
    }
}

/// The directory that holds a normalised directory.
pub open spec fn parent(dir: Seq<char>) -> Option<Seq<char>> {
    let k = last_slash(dir, dir.len() as int);
    if dir.len() == 0 || dir == seq!['/'] {
        None
    } else if k < 0 {
        Some(Seq::empty())
    } else if k == 0 {
        Some(seq!['/'])
    } else {
        Some(dir.subrange(0, k))
    }
}

/// A subtable name as it is stored in the table in `dir`: a table inside the
/// directory or beside it is named relative to it, any other as it stands.
pub open spec fn relative_name(name: Seq<char>, dir: Seq<char>) -> Seq<char> {
    let inner = dir + seq!['/'];
    if !absolute(name) {
        name
    } else if crate::text::has_prefix(name, inner) {
        "././"@ + name.subrange(inner.len() as int, name.len() as int)
    } else {
        match parent(dir) {
            None => name,
            Some(p) => {
                let outer = p + seq!['/'];
                if crate::text::has_prefix(name, outer) {
                    "./"@ + name.subrange(outer.len() as int, name.len() as int)
                } else {
                    name
                }
            },
        }
    }
}

fn without_prefix(name: &str, prefix: &String) -> (r: Option<String>)
    ensures
        if crate::text::has_prefix(name@, prefix@) {
            r matches Some(t) && t@ == name@.subrange(prefix@.len() as int, name@.len() as int)
        } else {
            r is None
        },
{
    if !starts_with(name, prefix.as_str()) {
        return None;
    }
    let s = chars_of(name);
    let n: usize = prefix.as_str().unicode_len();
    let mut out = String::new();
    push_chars(&mut out, vstd::slice::slice_subrange(s.as_slice(), n, s.len()));
    assert(out@ =~= name@.subrange(prefix@.len() as int, name@.len() as int));
    Some(out)
}

fn parent_of(dir: &str) -> (r: Option<String>)
    ensures
        match parent(dir@) {
            Some(p) => r matches Some(t) && t@ == p,
            None => r is None,
        },
{
    let s = chars_of(dir);
    let n: usize = s.len();
    if n == 0 {
        return None;
    }
    if n == 1 && s[0] == '/' {
        assert(dir@ =~= seq!['/']);
        return None;
    }
    let mut k: usize = n;
    while k > 0 && s[k - 1] != '/'
        invariant
            k <= n,
            n == s@.len(),
            last_slash(s@, n as int) == last_slash(s@, k as int),
        decreases k,
    {
        k = k - 1;
    }
    let mut out = String::new();
    if k == 1 {
        out.push('/');
        assert(out@ =~= seq!['/']);
    } else if k > 1 {
        push_chars(&mut out, vstd::slice::slice_subrange(s.as_slice(), 0, k - 1));
        assert(out@ =~= dir@.subrange(0, k - 1));
    }
    assert(dir@ != seq!['/']);
    Some(out)
}

/// The name under which a subtable is stored in the table in `dir`.
pub fn relativize_one(name: &str, dir: &str) -> (r: String)
    ensures
        r@ == relative_name(name@, dir@),
{
    if !is_absolute(name) {
        return name.to_owned();
    }
    let mut inner: String = dir.to_owned();
    inner.push('/');
    assert(inner@ =~= dir@ + seq!['/']);
    if let Some(rest) = without_prefix(name, &inner) {
        let mut out: String = "././".to_owned();
        out.append(rest.as_str());
        return out;
    }
    match parent_of(dir) {
        None => name.to_owned(),
        Some(p) => {
            let mut outer: String = p;
            let ghost before = outer@;
            outer.push('/');
            assert(outer@ =~= before + seq!['/']);
            if let Some(rest) = without_prefix(name, &outer) {
                let mut out: String = "./".to_owned();
                out.append(rest.as_str());
                return out;
            }
            name.to_owned()
        },
    }
}

/// The directory of a subtable that is stored under a name in the table in
/// `dir`: a name that starts with `././` is seen from the table's directory,
/// any other relative name from the directory that holds the table's.
pub open spec fn subtable_dir(name: Seq<char>, dir: Seq<char>) -> Seq<char> {
    if absolute(name) {
        normalized(name)
    } else if crate::text::has_prefix(name, "././"@) {
        resolved(name, dir)
    } else {
        match parent(dir) {
            Some(p) => resolved(name, p),
            None => resolved(name, dir),
        }
    }
}

/// Resolve a stored subtable name, seen from the table in `dir`, lexically.
pub fn resolve_subtable(name: &str, dir: &str) -> (r: String)
    ensures
        r@ == subtable_dir(name@, dir@),
{
    if is_absolute(name) {
        return lexical_normalize(name);
    }
    if starts_with(name, "././") {
        return resolve_name(name, dir);
    }
    match parent_of(dir) {
        Some(p) => resolve_name(name, p.as_str()),
        None => resolve_name(name, dir),
    }
}

/// A component as it stands in a normalised name.
pub open spec fn plain(part: Seq<char>) -> bool {
    &&& part.len() > 0
    &&& part != seq!['.']
    &&& part != seq!['.', '.']
    &&& forall|i: int| 0 <= i < part.len() ==> #[trigger] part[i] != '/'
}

/// All components are plain.
pub open spec fn all_plain(stack: Seq<Seq<char>>) -> bool {
    forall|i: int| 0 <= i < stack.len() ==> plain(#[trigger] stack[i])
}

proof fn lemma_walk_plain(s: Seq<char>, i: int, part: Seq<char>, stack: Seq<Seq<char>>)
    requires
        0 <= i,
        all_plain(stack),
        forall|k: int| 0 <= k < part.len() ==> #[trigger] part[k] != '/',
    ensures
        all_plain(walk(s, i, part, stack)),
    decreases s.len() - i,
{
    assert(all_plain(settle(stack, part)));
    if i < s.len() {
        if s[i] == '/' {
            lemma_walk_plain(s, i + 1, Seq::empty(), settle(stack, part));
        } else {
            lemma_walk_plain(s, i + 1, part.push(s[i]), stack);
        }
    }
}

/// Walking over characters that are no slashes collects them.
proof fn lemma_walk_part(
    s: Seq<char>,
    i: int,
    n: int,
    part: Seq<char>,
    stack: Seq<Seq<char>>,
)
    requires
        0 <= i <= i + n <= s.len(),
        forall|k: int| i <= k < i + n ==> #[trigger] s[k] != '/',
    ensures
        walk(s, i, part, stack) == walk(s, i + n, part + s.subrange(i, i + n), stack),
    decreases n,
{
    if n > 0 {
        assert(s[i] != '/');
        lemma_walk_part(s, i + 1, n - 1, part.push(s[i]), stack);
        assert(part.push(s[i]) + s.subrange(i + 1, i + n) =~= part + s.subrange(i, i + n));
    } else {
        assert(part + s.subrange(i, i) =~= part);
    }
}

/// Walking over the first part of a text does not depend on the rest, once a
/// slash follows.
proof fn lemma_walk_prefix(
    a: Seq<char>,
    b: Seq<char>,
    i: int,
    part: Seq<char>,
    stack: Seq<Seq<char>>,
)
    requires
        0 <= i <= a.len(),
        b.len() > 0,
        b[0] == '/',
    ensures
        walk(a + b, i, part, stack) == walk(
            a + b,
            a.len() as int + 1,
            Seq::empty(),
            walk(a, i, part, stack),
        ),
    decreases a.len() - i,
{
    if i < a.len() {
        assert((a + b)[i] == a[i]);
        if a[i] == '/' {
            lemma_walk_prefix(a, b, i + 1, Seq::empty(), settle(stack, part));
        } else {
            lemma_walk_prefix(a, b, i + 1, part.push(a[i]), stack);
        }
    } else {
        assert((a + b)[i] == '/');
    }
}

proof fn lemma_components_joined(stack: Seq<Seq<char>>)
    requires
        all_plain(stack),
    ensures
        components(joined(stack)) == stack,
    decreases stack.len(),
{
    if stack.len() == 0 {
        assert(components(Seq::<char>::empty()) =~= stack);
    } else {
        let last = stack.last();
        assert(plain(last));
        if stack.len() == 1 {
            lemma_walk_part(last, 0, last.len() as int, Seq::empty(), Seq::empty());
            assert(Seq::<char>::empty() + last.subrange(0, last.len() as int) =~= last);
            assert(components(last) =~= stack);
        } else {
            let front = stack.drop_last();
            let a = joined(front);
            let b = seq!['/'] + last;
            let s = joined(stack);
            assert forall|i: int| 0 <= i < front.len() implies plain(#[trigger] front[i]) by {
                assert(plain(stack[i]));
            }
            lemma_components_joined(front);
            assert(s =~= a + b);
            lemma_walk_prefix(a, b, 0, Seq::empty(), Seq::empty());
            let at = a.len() as int + 1;
            assert forall|k: int| at <= k < at + last.len() implies #[trigger] s[k] != '/' by {
                assert(s[k] == last[k - at]);
            }
            lemma_walk_part(s, at, last.len() as int, Seq::empty(), front);
            assert(Seq::<char>::empty() + s.subrange(at, at + last.len()) =~= last);
            assert(front.push(last) =~= stack);
        }
    }
}

/// Normalising a normalised name changes nothing.
pub proof fn law_normalize_idempotent(s: Seq<char>)
    ensures
        normalized(normalized(s)) == normalized(s),
{
    let stack = components(s);
    lemma_walk_plain(s, 0, Seq::empty(), Seq::empty());
    lemma_components_joined(stack);
    let j = joined(stack);
    let t = normalized(s);
    if absolute(s) {
        assert(t =~= seq!['/'] + j);
        assert(t[0] == '/');
        assert(t.subrange(1, t.len() as int) =~= j.subrange(0, j.len() as int));
        lemma_walk_tail(t, 1, j, 0, Seq::empty(), Seq::empty());
        assert(components(t) == walk(t, 1, Seq::empty(), settle(Seq::empty(), Seq::empty())));
        assert(components(t) == stack);
    } else {
        assert(t =~= j);
        if stack.len() > 0 {
            assert(plain(stack[0]));
            lemma_joined_head(stack);
        }
    }
}

/// The components of a text from some place on depend on what follows there
/// only.
proof fn lemma_walk_tail(
    s: Seq<char>,
    i: int,
    t: Seq<char>,
    j: int,
    part: Seq<char>,
    stack: Seq<Seq<char>>,
)
    requires
        0 <= i <= s.len(),
        0 <= j <= t.len(),
        s.subrange(i, s.len() as int) == t.subrange(j, t.len() as int),
    ensures
        walk(s, i, part, stack) == walk(t, j, part, stack),
    decreases s.len() - i,
{
    let x = s.subrange(i, s.len() as int);
    let y = t.subrange(j, t.len() as int);
    assert(x.len() == y.len());
    if i < s.len() {
        assert(x[0] == y[0]);
        assert(s.subrange(i + 1, s.len() as int) =~= x.subrange(1, x.len() as int));
        assert(t.subrange(j + 1, t.len() as int) =~= y.subrange(1, y.len() as int));
        if s[i] == '/' {
            lemma_walk_tail(s, i + 1, t, j + 1, Seq::empty(), settle(stack, part));
        } else {
            lemma_walk_tail(s, i + 1, t, j + 1, part.push(s[i]), stack);
        }
    }
}

/// A name behind a directory and dots resolves to the name behind the
/// directory.
proof fn lemma_dots(dir: Seq<char>, rest: Seq<char>, twice: bool)
    requires
        dir.len() > 0,
        dir.last() != '/',
        absolute(dir),
    ensures
        resolved((if twice { "././"@ } else { "./"@ }) + rest, dir) == normalized(
            dir + seq!['/'] + rest,
        ),
{
    let n = dir.len() as int;
    reveal_strlit("././");
    reveal_strlit("./");
    let dots = if twice {
        seq!['.', '/', '.', '/']
    } else {
        seq!['.', '/']
    };
    assert((if twice { "././"@ } else { "./"@ }) =~= dots);
    let name = dir + seq!['/'] + rest;
    let full = seen_from(dir, dots + rest);
    let b = seq!['/'] + (dots + rest);
    let c = seq!['/'] + rest;
    assert(full =~= dir + b);
    assert(name =~= dir + c);
    lemma_walk_prefix(dir, b, 0, Seq::empty(), Seq::empty());
    lemma_walk_prefix(dir, c, 0, Seq::empty(), Seq::empty());
    let stack = components(dir);
    let none = Seq::<char>::empty();
    assert(none.push('.') =~= seq!['.']);
    assert(full[n + 1] == '.' && full[n + 2] == '/');
    assert(walk(full, n + 1, none, stack) == walk(full, n + 2, seq!['.'], stack));
    assert(walk(full, n + 2, seq!['.'], stack) == walk(full, n + 3, none, stack));
    if twice {
        assert(full[n + 3] == '.' && full[n + 4] == '/');
        assert(walk(full, n + 3, none, stack) == walk(full, n + 4, seq!['.'], stack));
        assert(walk(full, n + 4, seq!['.'], stack) == walk(full, n + 5, none, stack));
    }
    let at = n + 1 + dots.len();
    assert(full.subrange(at, full.len() as int) =~= rest);
    assert(name.subrange(n + 1, name.len() as int) =~= rest);
    lemma_walk_tail(full, at, name, n + 1, none, stack);
    assert(full[0] == dir[0] && name[0] == dir[0]);
}

proof fn lemma_last_slash(s: Seq<char>, n: int)
    requires
        0 <= n <= s.len(),
    ensures
        ({
            let k = last_slash(s, n);
            &&& -1 <= k < n || k == -1
            &&& k >= 0 ==> s[k] == '/'
        }),
    decreases n,
{
    if n > 0 && s[n - 1] != '/' {
        lemma_last_slash(s, n - 1);
    }
}

/// No component of a name is empty.
pub open spec fn no_gaps(s: Seq<char>) -> bool {
    forall|i: int| 0 < i < s.len() && #[trigger] s[i] == '/' ==> s[i - 1] != '/'
}

/// An absolute subtable name resolves to itself again after it was stored,
/// wherever the subtable lies.
pub proof fn law_subtable_round_trip(name: Seq<char>, dir: Seq<char>)
    requires
        absolute(dir),
        dir.last() != '/',
        no_gaps(dir),
        absolute(name),
        normalized(name) == name,
    ensures
        subtable_dir(relative_name(name, dir), dir) == name,
{
    reveal_strlit("././");
    reveal_strlit("./");
    let inner = dir + seq!['/'];
    let stored = relative_name(name, dir);
    if crate::text::has_prefix(name, inner) {
        let rest = name.subrange(inner.len() as int, name.len() as int);
        lemma_prefix(name, inner);
        lemma_dots(dir, rest, true);
        assert(stored[0] == '.');
        assert(stored.subrange(0, 4) =~= "././"@);
    } else {
        match parent(dir) {
            None => {},
            Some(p) => {
                let outer = p + seq!['/'];
                if crate::text::has_prefix(name, outer) {
                    let rest = name.subrange(outer.len() as int, name.len() as int);
                    lemma_prefix(name, outer);
                    let k = last_slash(dir, dir.len() as int);
                    lemma_last_slash(dir, dir.len() as int);
                    if k == 0 {
                        assert(name[1] == outer[1]);
                        lemma_single_slash(name);
                    } else if k > 0 {
                        assert(dir[k] == '/');
                        assert(p.last() == dir[k - 1]);
                        assert(p[0] == dir[0]);
                        lemma_dots(p, rest, false);
                        assert(stored[0] == '.');
                        lemma_not_twice(name, p, rest);
                    } else {
                        assert(name[0] == outer[0]);
                        assert(dir[0] == '/');
                        lemma_slash_found(dir, dir.len() as int, 0);
                    }
                }
            },
        }
    }
}

proof fn lemma_slash_found(s: Seq<char>, n: int, i: int)
    requires
        0 <= i < n <= s.len(),
        s[i] == '/',
    ensures
        last_slash(s, n) >= i,
    decreases n,
{
    if s[n - 1] != '/' {
        lemma_slash_found(s, n - 1, i);
    }
}

proof fn lemma_prefix(name: Seq<char>, prefix: Seq<char>)
    requires
        crate::text::has_prefix(name, prefix),
    ensures
        name == prefix + name.subrange(prefix.len() as int, name.len() as int),
        forall|i: int| 0 <= i < prefix.len() ==> #[trigger] name[i] == prefix[i],
{
    let n = prefix.len() as int;
    assert(name.subrange(0, n) == prefix);
    assert forall|i: int| 0 <= i < n implies #[trigger] name[i] == prefix[i] by {
        assert(name.subrange(0, n)[i] == name[i]);
    }
    assert(name =~= prefix + name.subrange(n, name.len() as int));
}

/// A normalised name has one slash at its start.
proof fn lemma_single_slash(name: Seq<char>)
    requires
        absolute(name),
        normalized(name) == name,
        name.len() > 1,
    ensures
        name[1] != '/',
{
    let stack = components(name);
    lemma_walk_plain(name, 0, Seq::empty(), Seq::empty());
    if stack.len() > 0 {
        lemma_joined_head(stack);
        assert(name[1] == joined(stack)[0]);
    }
}

/// What follows a directory in a normalised name is no dot.
proof fn lemma_not_twice(name: Seq<char>, p: Seq<char>, rest: Seq<char>)
    requires
        name == p + seq!['/'] + rest,
        normalized(name) == name,
        absolute(name),
    ensures
        !crate::text::has_prefix("./"@ + rest, "././"@),
{
    reveal_strlit("././");
    reveal_strlit("./");
    let stored = "./"@ + rest;
    if crate::text::has_prefix(stored, "././"@) {
        lemma_prefix(stored, "././"@);
        assert(stored[2] == '.' && stored[3] == '/');
        assert(rest[0] == stored[2] && rest[1] == stored[3]);
        let n = p.len() as int;
        assert(name[n] == '/' && name[n + 1] == '.' && name[n + 2] == '/');
        lemma_no_dot(name, n);
    }
}

/// The length of a list of components with slashes between them.
pub open spec fn total(stack: Seq<Seq<char>>) -> int
    decreases stack.len(),
{
    if stack.len() == 0 {
        0
    } else {
        total(stack.drop_last()) + stack.last().len() + 1
    }
}

/// Walking over a dot between slashes makes a shorter name.
proof fn lemma_no_dot(name: Seq<char>, n: int)
    requires
        0 <= n,
        n + 2 < name.len(),
        name[n] == '/',
        name[n + 1] == '.',
        name[n + 2] == '/',
        absolute(name),
    ensures
        normalized(name) != name,
{
    let a = name.subrange(0, n);
    let b = name.subrange(n, name.len() as int);
    let none = Seq::<char>::empty();
    assert(name =~= a + b);
    if n > 0 {
        assert(a[0] == name[0]);
    }
    lemma_walk_prefix(a, b, 0, none, Seq::empty());
    let stack = components(a);
    assert(none.push('.') =~= seq!['.']);
    assert(walk(name, n + 1, none, stack) == walk(name, n + 2, seq!['.'], stack));
    assert(walk(name, n + 2, seq!['.'], stack) == walk(name, n + 3, none, stack));
    lemma_walk_total(a, 0, none, Seq::empty());
    lemma_walk_total(name, n + 3, none, stack);
    lemma_joined_total(components(name));
}

/// Walking makes no more components than there are characters.
proof fn lemma_walk_total(s: Seq<char>, i: int, part: Seq<char>, stack: Seq<Seq<char>>)
    requires
        0 <= i <= s.len(),
    ensures
        total(walk(s, i, part, stack)) <= total(stack) + part.len() + 1 + (s.len() - i),
        part.len() == 0 && i < s.len() && s[i] == '/' ==> total(walk(s, i, part, stack)) <= total(
            stack,
        ) + part.len() + (s.len() - i),
    decreases s.len() - i,
{
    lemma_settle_total(stack, part);
    if i < s.len() {
        if s[i] == '/' {
            lemma_walk_total(s, i + 1, Seq::empty(), settle(stack, part));
        } else {
            lemma_walk_total(s, i + 1, part.push(s[i]), stack);
        }
    }
}

proof fn lemma_settle_total(stack: Seq<Seq<char>>, part: Seq<char>)
    ensures
        total(settle(stack, part)) <= total(stack) + part.len() + 1,
        part.len() == 0 ==> total(settle(stack, part)) == total(stack),
{
    if part.len() == 0 || part == seq!['.'] {
    } else if part == seq!['.', '.'] {
        lemma_total_positive(stack);
    } else {
        assert(stack.push(part).drop_last() =~= stack);
    }
}

proof fn lemma_total_positive(stack: Seq<Seq<char>>)
    ensures
        total(stack) >= 0,
        stack.len() > 0 ==> total(stack.drop_last()) < total(stack),
    decreases stack.len(),
{
    if stack.len() > 0 {
        lemma_total_positive(stack.drop_last());
    }
}

proof fn lemma_joined_total(stack: Seq<Seq<char>>)
    ensures
        stack.len() > 0 ==> joined(stack).len() + 1 == total(stack),
        stack.len() == 0 ==> joined(stack).len() == 0,
    decreases stack.len(),
{
    if stack.len() > 0 {
        lemma_joined_total(stack.drop_last());
        if stack.len() == 1 {
            assert(total(stack.drop_last()) == 0);
        }
    }
}

proof fn lemma_joined_head(stack: Seq<Seq<char>>)
    requires
        all_plain(stack),
        stack.len() > 0,
    ensures
        joined(stack).len() > 0,
        joined(stack)[0] == stack[0][0],
        joined(stack)[0] != '/',
    decreases stack.len(),
{
    assert(plain(stack[0]));
    assert(stack[0][0] != '/');
    if stack.len() > 1 {
        let front = stack.drop_last();
        assert forall|i: int| 0 <= i < front.len() implies plain(#[trigger] front[i]) by {
            assert(plain(stack[i]));
        }
        lemma_joined_head(front);
        assert(joined(stack)[0] == joined(front)[0]);
    }
}

/// The characters of a name from `i` to before `j` are one of its components.
pub open spec fn component_at(s: Seq<char>, i: int, j: int) -> bool {
    &&& 0 <= i < j <= s.len()
    &&& i == 0 || s[i - 1] == '/'
    &&& j == s.len() || s[j] == '/'
    &&& forall|k: int| i <= k < j ==> #[trigger] s[k] != '/'
}

/// A component of joined components is one of them.
proof fn lemma_component_of_joined(stack: Seq<Seq<char>>, i: int, j: int)
    requires
        all_plain(stack),
        component_at(joined(stack), i, j),
    ensures
        plain(joined(stack).subrange(i, j)),
    decreases stack.len(),
{
    let s = joined(stack);
    if stack.len() == 1 {
        assert(plain(stack[0]));
        if i > 0 {
            assert(s[i - 1] != '/');
        }
        if j < s.len() {
            assert(s[j] != '/');
        }
        assert(s.subrange(i, j) =~= s);
    } else if stack.len() > 1 {
        let front = stack.drop_last();
        let last = stack.last();
        let a = joined(front);
        let n = a.len() as int;
        assert(s =~= a + seq!['/'] + last);
        assert(s[n] == '/');
        assert(plain(last));
        assert forall|k: int| 0 <= k < front.len() implies plain(#[trigger] front[k]) by {
            assert(plain(stack[k]));
        }
        if i <= n {
            if j > n {
                assert(i == n ==> s[i] == '/');
                assert(s[n] != '/');
            }
            assert forall|k: int| i <= k < j implies #[trigger] a[k] != '/' by {
                assert(s[k] != '/');
            }
            if i > 0 {
                assert(a[i - 1] == s[i - 1]);
            }
            if j < n {
                assert(a[j] == s[j]);
            }
            lemma_component_of_joined(front, i, j);
            assert(a.subrange(i, j) =~= s.subrange(i, j));
        } else {
            if i > n + 1 {
                assert(s[i - 1] == last[i - 1 - (n + 1)]);
            }
            if j < s.len() {
                assert(s[j] == last[j - (n + 1)]);
            }
            assert(s.subrange(i, j) =~= last);
        }
    }
}

/// No `.` or `..` is left among the components of a normalised name, and it
/// is absolute where the name was.
pub proof fn law_no_dots_left(s: Seq<char>, i: int, j: int)
    ensures
        absolute(normalized(s)) == absolute(s),
        component_at(normalized(s), i, j) ==> plain(normalized(s).subrange(i, j)),
{
    let stack = components(s);
    let t = normalized(s);
    let a = joined(stack);
    lemma_walk_plain(s, 0, Seq::empty(), Seq::empty());
    if !absolute(s) {
        assert(t =~= a);
        if stack.len() > 0 {
            lemma_joined_head(stack);
        }
        if component_at(t, i, j) {
            lemma_component_of_joined(stack, i, j);
        }
    } else {
        assert(t =~= seq!['/'] + a);
        assert(t[0] == '/');
        if component_at(t, i, j) {
            assert(i > 0) by {
                if i == 0 {
                    assert(t[0] != '/');
                }
            }
            assert forall|k: int| i - 1 <= k < j - 1 implies #[trigger] a[k] != '/' by {
                assert(t[k + 1] != '/');
            }
            if i > 1 {
                assert(a[i - 2] == t[i - 1]);
            }
            if j < t.len() {
                assert(a[j - 1] == t[j]);
            }
            lemma_component_of_joined(stack, i - 1, j - 1);
            assert(a.subrange(i - 1, j - 1) =~= t.subrange(i, j));
        }
    }
}

/// A name of plain components, absolute or not, keeps them all and stays as
/// it is.
pub proof fn law_plain_name_kept(stack: Seq<Seq<char>>)
    requires
        all_plain(stack),
    ensures
        components(joined(stack)) == stack,
        normalized(joined(stack)) == joined(stack),
        components(seq!['/'] + joined(stack)) == stack,
        normalized(seq!['/'] + joined(stack)) == seq!['/'] + joined(stack),
{
    let j = joined(stack);
    let t = seq!['/'] + j;
    lemma_components_joined(stack);
    if stack.len() > 0 {
        lemma_joined_head(stack);
    }
    assert(normalized(j) =~= j);
    assert(t[0] == '/');
    assert(t.subrange(1, t.len() as int) =~= j.subrange(0, j.len() as int));
    lemma_walk_tail(t, 1, j, 0, Seq::empty(), Seq::empty());
    assert(components(t) == walk(t, 1, Seq::empty(), settle(Seq::empty(), Seq::empty())));
}

/// The components of a name are those before a slash with those behind it
/// settled on them.
proof fn lemma_components_split(a: Seq<char>, b: Seq<char>)
    ensures
        components(a + seq!['/'] + b) == walk(b, 0, Seq::empty(), components(a)),
{
    let c = seq!['/'] + b;
    let s = a + c;
    let n = a.len() as int + 1;
    assert(a + seq!['/'] + b =~= s);
    lemma_walk_prefix(a, c, 0, Seq::empty(), Seq::empty());
    assert(s.subrange(n, s.len() as int) =~= b);
    assert(b.subrange(0, b.len() as int) =~= b);
    lemma_walk_tail(s, n, b, 0, Seq::empty(), components(a));
}

/// One component is settled.
proof fn lemma_walk_one(part: Seq<char>, stack: Seq<Seq<char>>)
    requires
        forall|i: int| 0 <= i < part.len() ==> #[trigger] part[i] != '/',
    ensures
        walk(part, 0, Seq::empty(), stack) == settle(stack, part),
{
    lemma_walk_part(part, 0, part.len() as int, Seq::empty(), stack);
    assert(Seq::<char>::empty() + part.subrange(0, part.len() as int) =~= part);
}

/// A component that `..` follows has no effect, nor has `.`, nor a slash at the
/// end.
pub proof fn law_step_back(p: Seq<char>, x: Seq<char>)
    requires
        p.len() > 0,
        plain(x),
    ensures
        normalized(p + seq!['/'] + x + seq!['/'] + seq!['.', '.']) == normalized(p),
        normalized(p + seq!['/'] + seq!['.']) == normalized(p),
        normalized(p + seq!['/']) == normalized(p),
{
    let q = p + seq!['/'] + x;
    let up = seq!['.', '.'];
    lemma_components_split(p, x);
    lemma_walk_one(x, components(p));
    lemma_components_split(q, up);
    lemma_walk_one(up, components(q));
    assert(x != seq!['.'] && x != up);
    assert(components(q) == components(p).push(x));
    assert(components(p).push(x).drop_last() =~= components(p));
    assert(up[0] == '.' && up[1] == '.');
    assert(up != seq!['.']) by {
        assert(up.len() == 2);
    }
    assert((q + seq!['/'] + up)[0] == p[0]);
    let here = seq!['.'];
    lemma_components_split(p, here);
    lemma_walk_one(here, components(p));
    assert((p + seq!['/'] + here)[0] == p[0]);
    let none = Seq::<char>::empty();
    lemma_components_split(p, none);
    lemma_walk_one(none, components(p));
    assert(p + seq!['/'] + none =~= p + seq!['/']);
    assert((p + seq!['/'])[0] == p[0]);
}

/// The components of a name of plain ones, settled on others.
proof fn lemma_walk_joined(stack: Seq<Seq<char>>, before: Seq<Seq<char>>)
    requires
        all_plain(stack),
    ensures
        walk(joined(stack), 0, Seq::empty(), before) == before + stack,
    decreases stack.len(),
{
    if stack.len() == 0 {
        assert(before + stack =~= before);
    } else {
        let last = stack.last();
        assert(plain(last));
        if stack.len() == 1 {
            lemma_walk_one(last, before);
            assert(before.push(last) =~= before + stack);
        } else {
            let front = stack.drop_last();
            assert forall|i: int| 0 <= i < front.len() implies plain(#[trigger] front[i]) by {
                assert(plain(stack[i]));
            }
            lemma_walk_joined(front, before);
            let a = joined(front);
            let c = seq!['/'] + last;
            let s = a + c;
            let n = a.len() as int + 1;
            assert(joined(stack) =~= s);
            lemma_walk_prefix(a, c, 0, Seq::empty(), before);
            assert(s.subrange(n, s.len() as int) =~= last);
            assert(last.subrange(0, last.len() as int) =~= last);
            lemma_walk_tail(s, n, last, 0, Seq::empty(), before + front);
            lemma_walk_one(last, before + front);
            assert((before + front).push(last) =~= before + stack);
        }
    }
}

/// A relative name of plain components stands for those components behind the
/// directory's own ones, and an absolute one for itself.
pub proof fn law_name_resolved(stack: Seq<Seq<char>>, base: Seq<char>)
    requires
        all_plain(stack),
        stack.len() > 0,
        base.len() > 0,
    ensures
        resolved(joined(stack), base) == (if absolute(base) {
            seq!['/']
        } else {
            Seq::empty()
        }) + joined(components(base) + stack),
        resolved(seq!['/'] + joined(stack), base) == seq!['/'] + joined(stack),
{
    let name = joined(stack);
    lemma_joined_head(stack);
    assert(!absolute(name));
    lemma_walk_joined(stack, components(base));
    lemma_components_split(base, name);
    if base.last() == '/' {
        let cut = base.drop_last();
        assert(base =~= cut + seq!['/']);
        lemma_components_split(cut, name);
        lemma_walk_joined(stack, components(cut));
        lemma_components_split(cut, Seq::empty());
        lemma_walk_one(Seq::empty(), components(cut));
        assert(cut + seq!['/'] + Seq::<char>::empty() =~= base);
        assert(components(base) == components(cut));
        assert(seen_from(base, name) =~= cut + seq!['/'] + name);
    } else {
        assert(seen_from(base, name) == base + seq!['/'] + name);
    }
    assert(seen_from(base, name)[0] == base[0]);
    law_plain_name_kept(stack);
    assert((seq!['/'] + name)[0] == '/');
}

/// The directory that holds another one.
pub proof fn law_parent(dir: Seq<char>, x: Seq<char>)
    requires
        dir.len() > 0,
        x.len() > 0,
        forall|i: int| 0 <= i < x.len() ==> #[trigger] x[i] != '/',
    ensures
        parent(dir + seq!['/'] + x) == Some(dir),
        parent(seq!['/'] + x) == Some(seq!['/']),
        parent(x) == Some(Seq::<char>::empty()),
{
    let s = dir + seq!['/'] + x;
    let t = seq!['/'] + x;
    lemma_slash_before(s, dir.len() as int + 1, x.len() as int);
    assert(s[dir.len() as int] == '/');
    assert(s.subrange(0, dir.len() as int) =~= dir);
    assert(s.len() > 1);
    lemma_slash_before(t, 1, x.len() as int);
    assert(t[0] == '/');
    assert(t.len() > 1);
    lemma_slash_before(x, 0, x.len() as int);
    assert(x[0] != '/');
}

proof fn lemma_slash_before(s: Seq<char>, at: int, n: int)
    requires
        0 <= at,
        0 <= n,
        at + n <= s.len(),
        forall|i: int| at <= i < at + n ==> #[trigger] s[i] != '/',
    ensures
        last_slash(s, at + n) == last_slash(s, at),
    decreases n,
{
    if n > 0 {
        assert(s[at + n - 1] != '/');
        lemma_slash_before(s, at, n - 1);
    }
}

/// A relative subtable name of plain components names a directory beside the
/// table's; behind `././` it names one inside it.
pub proof fn law_subtable_found(stack: Seq<Seq<char>>, dir: Seq<char>, x: Seq<char>)
    requires
        all_plain(stack),
        stack.len() > 0,
        absolute(dir),
        dir.last() != '/',
        plain(x),
    ensures
        ({
            let table = dir + seq!['/'] + x;
            &&& subtable_dir(joined(stack), table) == seq!['/'] + joined(components(dir) + stack)
            &&& subtable_dir("././"@ + joined(stack), table) == seq!['/'] + joined(
                components(dir).push(x) + stack,
            )
        }),
{
    reveal_strlit("././");
    let name = joined(stack);
    let table = dir + seq!['/'] + x;
    lemma_joined_head(stack);
    law_parent(dir, x);
    law_name_resolved(stack, dir);
    law_name_resolved(stack, table);
    lemma_components_split(dir, x);
    lemma_walk_one(x, components(dir));
    assert(components(table) == components(dir).push(x));
    assert(plain(stack[0]));
    assert(!crate::text::has_prefix(name, "././"@)) by {
        if crate::text::has_prefix(name, "././"@) {
            assert(name.subrange(0, 4)[0] == '.' && name.subrange(0, 4)[1] == '/');
            assert(name[0] == '.' && name[1] == '/');
            lemma_first_component(stack);
            if stack[0].len() == 1 {
                assert(stack[0] =~= seq!['.']);
            }
        }
    }
    let inner = "././"@ + name;
    assert(inner[0] == '.');
    assert(inner.subrange(0, 4) =~= "././"@);
    assert(table.last() == x.last());
    assert(x[x.len() - 1] != '/');
    assert(table[0] == dir[0]);
    lemma_dots(table, name, true);
    assert(seen_from(table, name) == table + seq!['/'] + name);
}

/// The first component stands at the start of a name.
proof fn lemma_first_component(stack: Seq<Seq<char>>)
    requires
        stack.len() > 0,
    ensures
        stack[0].len() <= joined(stack).len(),
        forall|i: int| 0 <= i < stack[0].len() ==> #[trigger] joined(stack)[i] == stack[0][i],
    decreases stack.len(),
{
    if stack.len() > 1 {
        let front = stack.drop_last();
        lemma_first_component(front);
        assert(front[0] == stack[0]);
        assert forall|i: int| 0 <= i < stack[0].len() implies #[trigger] joined(stack)[i]
            == stack[0][i] by {
            assert(joined(stack)[i] == joined(front)[i]);
        }
    }
}

/// The directory of a table as an absolute name: normalised where it is
/// absolute, else behind the working directory where that is known.
pub proof fn law_absolute_name(stack: Seq<Seq<char>>, cwd: Seq<char>, dir: Seq<char>)
    requires
        all_plain(stack),
        stack.len() > 0,
        absolute(cwd),
    ensures
        absolute_name(joined(stack), Some(cwd)) == seq!['/'] + joined(components(cwd) + stack),
        absolute_name(seq!['/'] + joined(stack), Some(cwd)) == seq!['/'] + joined(stack),
        absolute_name(joined(stack), None) == joined(stack),
        absolute(absolute_name(dir, Some(cwd))),
        absolute(dir) ==> absolute_name(dir, None) == absolute_name(dir, Some(cwd)),
        normalized(absolute_name(dir, Some(cwd))) == absolute_name(dir, Some(cwd)),
{
    lemma_joined_head(stack);
    law_name_resolved(stack, cwd);
    law_plain_name_kept(stack);
    assert((seq!['/'] + joined(stack))[0] == '/');
    let s = if absolute(dir) {
        dir
    } else {
        seen_from(cwd, dir)
    };
    assert(s[0] == '/');
    law_no_dots_left(s, 0, 0);
    law_normalize_idempotent(s);
}

} // verus!
