//! Text as sequences of characters.
use vstd::prelude::*;
use vstd::slice::slice_subrange;

verus! {

/// `String::push` appends the character to the text.
pub assume_specification[ String::push ](s: &mut String, c: char)
    ensures
        final(s)@ == old(s)@.push(c),
;

/// The characters of a string.
pub fn chars_of(s: &str) -> (r: Vec<char>)
    ensures
        r@ == s@,
{
    let mut out: Vec<char> = Vec::new();
    for c in it: s.chars()
        invariant
            it.seq() == s@,
            out@ == it.seq().take(it.index() as int),
    {
        out.push(c);
    }
    out
}

/// The string made of `s`.
pub fn string_of(s: &[char]) -> (r: String)
    ensures
        r@ == s@,
{
    let mut out: String = String::new();
    let mut i: usize = 0;
    while i < s.len()
        invariant
            i <= s.len(),
            out@ == s@.take(i as int),
        decreases s.len() - i,
    {
        out.push(s[i]);
        i += 1;
    }
    assert(s@.take(i as int) == s@);
    out
}

/// The characters with the Unicode White_Space property.
pub open spec fn white(c: char) -> bool {
    ||| 9 <= c as int <= 13
    ||| c as int == 32
    ||| c as int == 133
    ||| c as int == 160
    ||| c as int == 5760
    ||| 8192 <= c as int <= 8202
    ||| c as int == 8232
    ||| c as int == 8233
    ||| c as int == 8239
    ||| c as int == 8287
    ||| c as int == 12288
}

pub fn is_white(c: char) -> (r: bool)
    ensures
        r == white(c),
{
    let n: u32 = c as u32;
    (9 <= n && n <= 13) || n == 32 || n == 133 || n == 160 || n == 5760
        || (8192 <= n && n <= 8202) || n == 8232 || n == 8233 || n == 8239
        || n == 8287 || n == 12288
}

pub open spec fn trimmed_start(s: Seq<char>) -> Seq<char>
    decreases s.len(),
{
    if s.len() > 0 && white(s.first()) {
        trimmed_start(s.drop_first())
    } else {
        s
    }
}

pub open spec fn trimmed_end(s: Seq<char>) -> Seq<char>
    decreases s.len(),
{
    if s.len() > 0 && white(s.last()) {
        trimmed_end(s.drop_last())
    } else {
        s
    }
}

pub open spec fn trimmed(s: Seq<char>) -> Seq<char> {
    trimmed_end(trimmed_start(s))
}

pub fn trim(s: &[char]) -> (r: &[char])
    ensures
        r@ == trimmed(s@),
{
    let mut a: usize = 0;
    assert(s@.skip(0) == s@);
    while a < s.len() && is_white(s[a])
        invariant
            a <= s.len(),
            trimmed_start(s@) == trimmed_start(s@.skip(a as int)),
        decreases s.len() - a,
    {
        assert(s@.skip(a as int).drop_first() == s@.skip(a + 1));
        a += 1;
    }
    let mut b: usize = s.len();
    assert(s@.subrange(a as int, b as int) == s@.skip(a as int));
    while a < b && is_white(s[b - 1])
        invariant
            a <= b <= s.len(),
            trimmed(s@) == trimmed_end(s@.subrange(a as int, b as int)),
        decreases b,
    {
        assert(s@.subrange(a as int, b as int).drop_last() == s@.subrange(a as int, b - 1));
        b -= 1;
    }
    slice_subrange(s, a, b)
}


/// Whether two texts are the same.
pub fn same(a: &[char], b: &[char]) -> (r: bool)
    ensures
        r == (a@ == b@),
{
    if a.len() != b.len() {
        return false;
    }
    let mut i: usize = 0;
    while i < a.len()
        invariant
            i <= a.len(),
            a.len() == b.len(),
            forall|j: int| 0 <= j < i ==> a@[j] == b@[j],
        decreases a.len() - i,
    {
        if a[i] != b[i] {
            return false;
        }
        i += 1;
    }
    assert(a@ =~= b@);
    true
}

/// Whether `s` is spelled `word`.
pub fn spells(s: &[char], word: &str) -> (r: bool)
    ensures
        r == (s@ == word@),
{
    let w = chars_of(word);
    same(s, w.as_slice())
}

/// Whether two strings hold the same text.
pub fn same_text(a: &str, b: &str) -> (r: bool)
    ensures
        r == (a@ == b@),
{
    let v = chars_of(a);
    spells(v.as_slice(), b)
}

/// A text of its own, copied from a slice.
pub fn copied(s: &[char]) -> (r: Vec<char>)
    ensures
        r@ == s@,
{
    let mut out: Vec<char> = Vec::new();
    let mut i: usize = 0;
    while i < s.len()
        invariant
            i <= s.len(),
            out@ == s@.take(i as int),
        decreases s.len() - i,
    {
        out.push(s[i]);
        i += 1;
    }
    assert(s@.take(i as int) == s@);
    out
}

/// `c`, or its lower-case counterpart where `c` is an ASCII capital.
pub open spec fn lower_char(c: char) -> char {
    if 65 <= c as int <= 90 {
        ((c as int) + 32) as char
    } else {
        c
    }
}

/// `c`, or its capital where `c` is an ASCII lower-case letter.
pub open spec fn upper_char(c: char) -> char {
    if 97 <= c as int <= 122 {
        ((c as int) - 32) as char
    } else {
        c
    }
}

pub open spec fn lowered(s: Seq<char>) -> Seq<char> {
    Seq::new(s.len(), |i: int| lower_char(s[i]))
}

pub open spec fn raised(s: Seq<char>) -> Seq<char> {
    Seq::new(s.len(), |i: int| upper_char(s[i]))
}

/// The text with every ASCII capital made lower-case.
pub fn lower(s: &[char]) -> (r: Vec<char>)
    ensures
        r@ == lowered(s@),
{
    let mut out: Vec<char> = Vec::new();
    let mut i: usize = 0;
    while i < s.len()
        invariant
            i <= s.len(),
            out@.len() == i,
            forall|j: int| 0 <= j < i ==> out@[j] == lower_char(s@[j]),
        decreases s.len() - i,
    {
        let c = s[i];
        if 'A' <= c && c <= 'Z' {
            out.push((c as u8 + 32) as char);
        } else {
            out.push(c);
        }
        i += 1;
    }
    assert(out@ =~= lowered(s@));
    out
}

/// The text with every ASCII lower-case letter made a capital.
pub fn upper(s: &[char]) -> (r: Vec<char>)
    ensures
        r@ == raised(s@),
{
    let mut out: Vec<char> = Vec::new();
    let mut i: usize = 0;
    while i < s.len()
        invariant
            i <= s.len(),
            out@.len() == i,
            forall|j: int| 0 <= j < i ==> out@[j] == upper_char(s@[j]),
        decreases s.len() - i,
    {
        let c = s[i];
        if 'a' <= c && c <= 'z' {
            out.push((c as u8 - 32) as char);
        } else {
            out.push(c);
        }
        i += 1;
    }
    assert(out@ =~= raised(s@));
    out
}

/// Where `c` first stands in `s`; the length of `s` where it does not.
pub open spec fn first_at(s: Seq<char>, c: char) -> nat
    decreases s.len(),
{
    if s.len() == 0 || s.first() == c {
        0
    } else {
        1 + first_at(s.drop_first(), c)
    }
}

/// What [`first_at`] finds is the first place.
pub proof fn first_at_is_first(s: Seq<char>, c: char)
    ensures
        first_at(s, c) <= s.len(),
        first_at(s, c) < s.len() ==> s[first_at(s, c) as int] == c,
        forall|i: int| 0 <= i < first_at(s, c) ==> s[i] != c,
    decreases s.len(),
{
    if s.len() > 0 && s.first() != c {
        let t = s.drop_first();
        first_at_is_first(t, c);
        assert forall|i: int| 0 <= i < first_at(s, c) implies s[i] != c by {
            if i > 0 {
                assert(s[i] == t[i - 1]);
            }
        }
    }
}

/// A place with `c` before which there is none is where [`first_at`] points.
pub proof fn first_at_unique(s: Seq<char>, c: char, k: int)
    requires
        0 <= k <= s.len(),
        k < s.len() ==> s[k] == c,
        forall|i: int| 0 <= i < k ==> s[i] != c,
    ensures
        first_at(s, c) == k,
{
    first_at_is_first(s, c);
    let f = first_at(s, c) as int;
    if f < k {
        assert(s[f] != c);
    } else if k < f {
        assert(s[k] != c);
    }
}

pub fn find(s: &[char], c: char) -> (r: usize)
    ensures
        r == first_at(s@, c),
        r <= s@.len(),
{
    let mut i: usize = 0;
    while i < s.len() && s[i] != c
        invariant
            i <= s.len(),
            forall|j: int| 0 <= j < i ==> s@[j] != c,
        decreases s.len() - i,
    {
        i += 1;
    }
    proof {
        first_at_unique(s@, c, i as int);
    }
    i
}

/// The two sides of the first `c`, where there is one.
pub open spec fn parted(s: Seq<char>, c: char) -> Option<(Seq<char>, Seq<char>)> {
    let i = first_at(s, c) as int;
    if i < s.len() {
        Some((s.take(i), s.skip(i + 1)))
    } else {
        None
    }
}

pub fn split_once<'a>(s: &'a [char], c: char) -> (r: Option<(&'a [char], &'a [char])>)
    ensures
        match r {
            Some(p) => parted(s@, c) == Some((p.0@, p.1@)),
            None => parted(s@, c) is None,
        },
{
    let i: usize = find(s, c);
    if i < s.len() {
        let a = slice_subrange(s, 0, i);
        let b = slice_subrange(s, i + 1, s.len());
        assert(a@ == s@.take(i as int));
        assert(b@ == s@.skip(i + 1));
        Some((a, b))
    } else {
        None
    }
}

/// The pieces of `s` between its occurrences of `c`.
pub open spec fn pieces(s: Seq<char>, c: char) -> Seq<Seq<char>>
    decreases s.len(),
{
    let i = first_at(s, c) as int;
    if i < s.len() {
        seq![s.take(i)] + pieces(s.skip(i + 1), c)
    } else {
        seq![s]
    }
}

/// What a list of texts holds.
pub open spec fn views(v: Seq<Vec<char>>) -> Seq<Seq<char>> {
    Seq::new(v.len(), |i: int| v[i]@)
}

/// What a list of strings holds.
pub open spec fn texts(v: Seq<String>) -> Seq<Seq<char>> {
    Seq::new(v.len(), |i: int| v[i]@)
}

pub fn split(s: &[char], c: char) -> (r: Vec<Vec<char>>)
    ensures
        views(r@) == pieces(s@, c),
        r@.len() >= 1,
{
    let mut out: Vec<Vec<char>> = Vec::new();
    let mut start: usize = 0;
    assert(s@.skip(0) == s@);
    assert(views(out@) + pieces(s@, c) == pieces(s@, c));
    loop
        invariant
            start <= s.len(),
            views(out@) + pieces(s@.skip(start as int), c) == pieces(s@, c),
        decreases s.len() - start,
    {
        let rest = slice_subrange(s, start, s.len());
        assert(rest@ == s@.skip(start as int));
        let i: usize = find(rest, c);
        let ghost before = views(out@);
        if i < rest.len() {
            let piece = slice_subrange(rest, 0, i);
            out.push(copied(piece));
            proof {
                assert(piece@ == rest@.take(i as int));
                assert(views(out@) == before.push(piece@));
                assert(rest@.skip(i + 1) == s@.skip(start + i + 1));
                assert(before + (seq![piece@] + pieces(rest@.skip(i + 1), c)) == views(out@)
                    + pieces(rest@.skip(i + 1), c));
            }
            start = start + i + 1;
        } else {
            out.push(copied(rest));
            proof {
                assert(views(out@) == before + seq![rest@]);
            }
            return out;
        }
    }
}

/// The texts of a list that are not blank, trimmed.
pub open spec fn solid(v: Seq<Seq<char>>) -> Seq<Seq<char>>
    decreases v.len(),
{
    if v.len() == 0 {
        Seq::empty()
    } else if trimmed(v.last()).len() == 0 {
        solid(v.drop_last())
    } else {
        solid(v.drop_last()).push(trimmed(v.last()))
    }
}

/// The items of a list written with `c` between them: trimmed, without blanks.
pub fn items(s: &[char], c: char) -> (r: Vec<Vec<char>>)
    ensures
        views(r@) == solid(pieces(s@, c)),
{
    let parts = split(s, c);
    let ghost all = views(parts@);
    let mut out: Vec<Vec<char>> = Vec::new();
    let mut i: usize = 0;
    while i < parts.len()
        invariant
            i <= parts.len(),
            all == views(parts@),
            views(out@) == solid(all.take(i as int)),
        decreases parts.len() - i,
    {
        let t = trim(parts[i].as_slice());
        proof {
            assert(all.take(i + 1).drop_last() == all.take(i as int));
            assert(all.take(i + 1).last() == parts@[i as int]@);
        }
        if t.len() > 0 {
            let ghost before = views(out@);
            out.push(copied(t));
            assert(views(out@) == before.push(t@));
        }
        i += 1;
    }
    assert(all.take(i as int) == all);
    out
}

/// Where the first white-space character stands; the length where there is none.
pub open spec fn first_white(s: Seq<char>) -> nat
    decreases s.len(),
{
    if s.len() == 0 || white(s.first()) {
        0
    } else {
        1 + first_white(s.drop_first())
    }
}

proof fn first_white_unique(s: Seq<char>, k: int)
    requires
        0 <= k <= s.len(),
        k < s.len() ==> white(s[k]),
        forall|i: int| 0 <= i < k ==> !white(s[i]),
    ensures
        first_white(s) == k,
    decreases s.len(),
{
    if s.len() > 0 && k > 0 {
        let t = s.drop_first();
        assert(!white(s[0]));
        assert forall|i: int| 0 <= i < k - 1 implies !white(t[i]) by {
            assert(t[i] == s[i + 1]);
        }
        first_white_unique(t, k - 1);
    }
}

proof fn first_white_bound(s: Seq<char>)
    ensures
        first_white(s) <= s.len(),
        s.len() > 0 && !white(s.first()) ==> first_white(s) > 0,
    decreases s.len(),
{
    if s.len() > 0 {
        first_white_bound(s.drop_first());
    }
}

proof fn trimmed_start_shorter(s: Seq<char>)
    ensures
        trimmed_start(s).len() <= s.len(),
        trimmed_start(s).len() > 0 ==> !white(trimmed_start(s).first()),
    decreases s.len(),
{
    if s.len() > 0 && white(s.first()) {
        trimmed_start_shorter(s.drop_first());
    }
}

/// The words of `s`: what stands between its runs of white space.
pub open spec fn spaced(s: Seq<char>) -> Seq<Seq<char>>
    decreases s.len(),
    when true
    via spaced_decreases
{
    let t = trimmed_start(s);
    if t.len() == 0 {
        Seq::empty()
    } else {
        seq![t.take(first_white(t) as int)] + spaced(t.skip(first_white(t) as int))
    }
}

#[via_fn]
proof fn spaced_decreases(s: Seq<char>) {
    trimmed_start_shorter(s);
    first_white_bound(trimmed_start(s));
}

pub fn words(s: &[char]) -> (r: Vec<Vec<char>>)
    ensures
        views(r@) == spaced(s@),
{
    let mut out: Vec<Vec<char>> = Vec::new();
    let mut at: usize = 0;
    assert(s@.skip(0) == s@);
    assert(views(out@) + spaced(s@) == spaced(s@));
    loop
        invariant
            at <= s.len(),
            views(out@) + spaced(s@.skip(at as int)) == spaced(s@),
        decreases s.len() - at,
    {
        let ghost rest = s@.skip(at as int);
        let mut a: usize = at;
        while a < s.len() && is_white(s[a])
            invariant
                at <= a <= s.len(),
                trimmed_start(s@.skip(at as int)) == trimmed_start(s@.skip(a as int)),
            decreases s.len() - a,
        {
            assert(s@.skip(a as int).drop_first() == s@.skip(a + 1));
            a += 1;
        }
        let ghost t = s@.skip(a as int);
        assert(trimmed_start(rest) == t);
        if a == s.len() {
            assert(spaced(rest) == Seq::<Seq<char>>::empty());
            assert(views(out@) + spaced(rest) == views(out@));
            return out;
        }
        let mut b: usize = a;
        while b < s.len() && !is_white(s[b])
            invariant
                a <= b <= s.len(),
                forall|j: int| a <= j < b ==> !white(s@[j]),
            decreases s.len() - b,
        {
            b += 1;
        }
        let ghost before = views(out@);
        let word = slice_subrange(s, a, b);
        out.push(copied(word));
        proof {
            first_white_unique(t, b - a);
            assert(word@ == t.take(b - a));
            assert(t.skip(b - a) == s@.skip(b as int));
            assert(views(out@) == before.push(word@));
            assert(before + (seq![word@] + spaced(s@.skip(b as int))) == views(out@) + spaced(s@.skip(b as int)));
        }
        at = b;
    }
}

/// Whether `s` starts with `p`.
pub open spec fn begins(s: Seq<char>, p: Seq<char>) -> bool {
    p.len() <= s.len() && s.take(p.len() as int) == p
}

/// Whether `s` ends with `p`.
pub open spec fn closes(s: Seq<char>, p: Seq<char>) -> bool {
    p.len() <= s.len() && s.skip(s.len() - p.len()) == p
}

/// Whether `p` stands somewhere in `s`.
pub open spec fn holds(s: Seq<char>, p: Seq<char>) -> bool {
    exists|i: int| 0 <= i <= s.len() - p.len() && #[trigger] s.subrange(i, i + p.len()) == p
}

pub fn starts_with(s: &[char], p: &str) -> (r: bool)
    ensures
        r == begins(s@, p@),
{
    let p = chars_of(p);
    if p.len() > s.len() {
        return false;
    }
    let head = slice_subrange(s, 0, p.len());
    assert(head@ == s@.take(p@.len() as int));
    same(head, p.as_slice())
}

pub fn ends_with(s: &[char], p: &str) -> (r: bool)
    ensures
        r == closes(s@, p@),
{
    let p = chars_of(p);
    if p.len() > s.len() {
        return false;
    }
    let tail = slice_subrange(s, s.len() - p.len(), s.len());
    assert(tail@ == s@.skip(s@.len() - p@.len()));
    same(tail, p.as_slice())
}

pub fn contains(s: &[char], p: &str) -> (r: bool)
    ensures
        r == holds(s@, p@),
{
    let pat = chars_of(p);
    if pat.len() > s.len() {
        return false;
    }
    let mut i: usize = 0;
    while i < s.len() - pat.len()
        invariant
            pat@ == p@,
            pat.len() <= s.len(),
            i <= s.len() - pat.len(),
            forall|j: int| 0 <= j < i ==> #[trigger] s@.subrange(j, j + p@.len()) != p@,
        decreases s.len() - i,
    {
        if same(slice_subrange(s, i, i + pat.len()), pat.as_slice()) {
            assert(s@.subrange(i as int, i + p@.len()) == p@);
            return true;
        }
        i += 1;
    }
    let found = same(slice_subrange(s, i, i + pat.len()), pat.as_slice());
    assert(found == (s@.subrange(i as int, i + p@.len()) == p@));
    found
}

/// `s` with `to` in place of each `c`.
pub open spec fn replaced_char(s: Seq<char>, c: char, to: Seq<char>) -> Seq<char>
    decreases s.len(),
{
    if s.len() == 0 {
        Seq::empty()
    } else {
        replaced_char(s.drop_last(), c, to) + (if s.last() == c {
            to
        } else {
            seq![s.last()]
        })
    }
}

pub fn replace_char(s: &[char], c: char, to: &str) -> (r: Vec<char>)
    ensures
        r@ == replaced_char(s@, c, to@),
{
    let to = chars_of(to);
    let mut out: Vec<char> = Vec::new();
    let mut i: usize = 0;
    while i < s.len()
        invariant
            i <= s.len(),
            out@ == replaced_char(s@.take(i as int), c, to@),
        decreases s.len() - i,
    {
        assert(s@.take(i + 1).drop_last() == s@.take(i as int));
        let ghost before = out@;
        if s[i] == c {
            push_all(&mut out, to.as_slice());
        } else {
            out.push(s[i]);
            assert(out@ == before + seq![s@[i as int]]);
        }
        i += 1;
    }
    assert(s@.take(i as int) == s@);
    out
}

/// Append a text to another.
pub fn push_all(out: &mut Vec<char>, s: &[char])
    ensures
        final(out)@ == old(out)@ + s@,
{
    let mut i: usize = 0;
    while i < s.len()
        invariant
            i <= s.len(),
            out@ == old(out)@ + s@.take(i as int),
        decreases s.len() - i,
    {
        out.push(s[i]);
        assert(s@.take(i + 1) == s@.take(i as int).push(s@[i as int]));
        i += 1;
    }
    assert(s@.take(i as int) == s@);
}

/// `s` with `to` in place of each `p`, read from the left without overlap.
pub open spec fn replaced(s: Seq<char>, p: Seq<char>, to: Seq<char>) -> Seq<char>
    decreases s.len(),
{
    if p.len() == 0 || s.len() < p.len() {
        s
    } else if s.take(p.len() as int) == p {
        to + replaced(s.skip(p.len() as int), p, to)
    } else {
        seq![s.first()] + replaced(s.drop_first(), p, to)
    }
}

pub fn replace(s: &[char], p: &str, to: &str) -> (r: Vec<char>)
    requires
        p@.len() > 0,
    ensures
        r@ == replaced(s@, p@, to@),
{
    let p = chars_of(p);
    let to = chars_of(to);
    let mut out: Vec<char> = Vec::new();
    let mut i: usize = 0;
    assert(s@.skip(0) == s@);
    assert(out@ + replaced(s@, p@, to@) == replaced(s@, p@, to@));
    while i < s.len() && p.len() <= s.len() - i
        invariant
            i <= s.len(),
            p.len() > 0,
            out@ + replaced(s@.skip(i as int), p@, to@) == replaced(s@, p@, to@),
        decreases s.len() - i,
    {
        let ghost rest = s@.skip(i as int);
        let ghost before = out@;
        let head = slice_subrange(s, i, i + p.len());
        assert(head@ == rest.take(p@.len() as int));
        if same(head, p.as_slice()) {
            push_all(&mut out, to.as_slice());
            proof {
                assert(rest.skip(p@.len() as int) == s@.skip(i + p@.len()));
                assert(before + (to@ + replaced(s@.skip(i + p@.len()), p@, to@)) == out@
                    + replaced(s@.skip(i + p@.len()), p@, to@));
            }
            i += p.len();
        } else {
            out.push(s[i]);
            proof {
                assert(rest.drop_first() == s@.skip(i + 1));
                assert(before + (seq![rest.first()] + replaced(s@.skip(i + 1), p@, to@)) == out@
                    + replaced(s@.skip(i + 1), p@, to@));
            }
            i += 1;
        }
    }
    let tail = slice_subrange(s, i, s.len());
    assert(tail@ == s@.skip(i as int));
    push_all(&mut out, tail);
    out
}

pub open spec fn digit(c: char) -> bool {
    48 <= c as int <= 57
}

/// The number that a row of decimal digits spells.
pub open spec fn decimal_value(s: Seq<char>) -> nat
    decreases s.len(),
{
    if s.len() == 0 {
        0
    } else {
        (decimal_value(s.drop_last()) * 10 + (s.last() as int - 48)) as nat
    }
}

/// `s` without the plus sign that it may open with.
pub open spec fn unsigned(s: Seq<char>) -> Seq<char> {
    if s.len() > 0 && s.first() == '+' {
        s.drop_first()
    } else {
        s
    }
}

pub open spec fn all_digits(s: Seq<char>) -> bool {
    forall|i: int| 0 <= i < s.len() ==> digit(#[trigger] s[i])
}

/// The count that `s` spells: decimal digits, after an optional plus sign, of a
/// number that fits.
pub open spec fn count_of(s: Seq<char>) -> Option<usize> {
    let d = unsigned(s);
    if d.len() > 0 && all_digits(d) && decimal_value(d) <= usize::MAX {
        Some(decimal_value(d) as usize)
    } else {
        None
    }
}

proof fn decimal_value_grows(s: Seq<char>, k: int)
    requires
        0 <= k <= s.len(),
        all_digits(s),
    ensures
        decimal_value(s.take(k)) <= decimal_value(s),
    decreases s.len() - k,
{
    if k == s.len() {
        assert(s.take(k) == s);
    } else {
        assert(s.take(k + 1).drop_last() == s.take(k));
        assert(digit(s[k]));
        assert(s.take(k + 1).last() == s[k]);
        decimal_value_grows(s, k + 1);
    }
}

pub fn parse_count(s: &[char]) -> (r: Option<usize>)
    ensures
        r == count_of(s@),
{
    let from: usize = if s.len() > 0 && s[0] == '+' {
        1
    } else {
        0
    };
    let d = slice_subrange(s, from, s.len());
    assert(d@ == unsigned(s@));
    if d.len() == 0 {
        return None;
    }
    let mut i: usize = 0;
    let mut n: usize = 0;
    while i < d.len()
        invariant
            i <= d.len(),
            n == decimal_value(d@.take(i as int)),
            forall|j: int| 0 <= j < i ==> digit(#[trigger] d@[j]),
            d@ == unsigned(s@),
            d@.len() > 0,
        decreases d.len() - i,
    {
        let c = d[i];
        if c < '0' || c > '9' {
            assert(!digit(d@[i as int]));
            return None;
        }
        let v: usize = (c as u8 - 48) as usize;
        proof {
            assert(d@.take(i + 1).drop_last() == d@.take(i as int));
            assert(d@.take(i + 1).last() == c);
        }
        if n > usize::MAX / 10 || n * 10 > usize::MAX - v {
            proof {
                if all_digits(d@) {
                    decimal_value_grows(d@, i + 1);
                }
            }
            return None;
        }
        n = n * 10 + v;
        i += 1;
    }
    assert(d@.take(i as int) == d@);
    Some(n)
}

pub open spec fn digit_char(n: nat) -> char {
    (48 + n % 10) as char
}

/// The decimal digits of a number.
pub open spec fn digits(n: nat) -> Seq<char>
    decreases n,
{
    if n < 10 {
        seq![digit_char(n)]
    } else {
        digits(n / 10).push(digit_char(n))
    }
}

/// A number in decimal digits.
pub fn decimal_long(n: u64) -> (r: String)
    ensures
        r@ == digits(n as nat),
    decreases n,
{
    let d: u8 = (n % 10) as u8;
    let c: char = (48 + d) as char;
    if n < 10 {
        let mut out: String = String::new();
        out.push(c);
        assert(out@ == digits(n as nat));
        out
    } else {
        let mut out: String = decimal_long(n / 10);
        out.push(c);
        out
    }
}

/// A count in decimal digits.
pub fn decimal(n: usize) -> (r: String)
    ensures
        r@ == digits(n as nat),
{
    decimal_long(n as u64)
}

/// The texts one after the other, with `sep` between neighbours.
pub open spec fn joined(v: Seq<Seq<char>>, sep: Seq<char>) -> Seq<char>
    decreases v.len(),
{
    if v.len() == 0 {
        Seq::empty()
    } else if v.len() == 1 {
        v[0]
    } else {
        joined(v.drop_last(), sep) + sep + v.last()
    }
}

pub fn join(v: &Vec<String>, sep: &str) -> (r: String)
    ensures
        r@ == joined(texts(v@), sep@),
{
    let mut out: String = String::new();
    let mut i: usize = 0;
    while i < v.len()
        invariant
            i <= v.len(),
            out@ == joined(texts(v@).take(i as int), sep@),
        decreases v.len() - i,
    {
        proof {
            assert(texts(v@).take(i + 1).drop_last() == texts(v@).take(i as int));
        }
        if i > 0 {
            out.append(sep);
        }
        out.append(v[i].as_str());
        i += 1;
    }
    assert(texts(v@).take(i as int) == texts(v@));
    out
}

/// Splitting a text with `c` between two parts splits both parts.
pub proof fn pieces_of_two(a: Seq<char>, b: Seq<char>, c: char)
    ensures
        pieces(a.push(c) + b, c) == pieces(a, c) + pieces(b, c),
    decreases a.len(),
{
    let s = a.push(c) + b;
    let i = first_at(a, c) as int;
    first_at_is_first(a, c);
    if i < a.len() {
        first_at_unique(s, c, i);
        let rest = a.skip(i + 1);
        pieces_of_two(rest, b, c);
        assert(s.take(i) == a.take(i));
        assert(s.skip(i + 1) == rest.push(c) + b);
        assert(seq![a.take(i)] + (pieces(rest, c) + pieces(b, c)) == (seq![a.take(i)] + pieces(
            rest,
            c,
        )) + pieces(b, c));
    } else {
        first_at_unique(s, c, a.len() as int);
        assert(s.take(i) == a);
        assert(s.skip(i + 1) == b);
    }
}

/// What is not blank in two lists is what is not blank in either.
pub proof fn solid_of_two(u: Seq<Seq<char>>, v: Seq<Seq<char>>)
    ensures
        solid(u + v) == solid(u) + solid(v),
    decreases v.len(),
{
    if v.len() == 0 {
        assert(u + v == u);
        assert(solid(u) + solid(v) == solid(u));
    } else {
        solid_of_two(u, v.drop_last());
        assert((u + v).drop_last() == u + v.drop_last());
        assert((u + v).last() == v.last());
        if trimmed(v.last()).len() > 0 {
            assert(solid(u) + solid(v.drop_last()).push(trimmed(v.last())) == (solid(u) + solid(
                v.drop_last(),
            )).push(trimmed(v.last())));
        }
    }
}

proof fn solid_of_same(u: Seq<Seq<char>>, v: Seq<Seq<char>>)
    requires
        u.len() == v.len(),
        forall|i: int| 0 <= i < u.len() ==> trimmed(#[trigger] u[i]) == trimmed(v[i]),
    ensures
        solid(u) == solid(v),
    decreases u.len(),
{
    if u.len() > 0 {
        let (p, q) = (u.drop_last(), v.drop_last());
        assert forall|i: int| 0 <= i < p.len() implies trimmed(#[trigger] p[i]) == trimmed(q[i]) by {
            assert(p[i] == u[i]);
        }
        solid_of_same(p, q);
        assert(u[u.len() - 1] == u.last());
    }
}

proof fn trimmed_start_of_push(s: Seq<char>, w: char)
    requires
        white(w),
    ensures
        trimmed_start(s.push(w)) == (if trimmed_start(s).len() == 0 {
            Seq::empty()
        } else {
            trimmed_start(s).push(w)
        }),
    decreases s.len(),
{
    if s.len() == 0 {
        assert(s.push(w).drop_first() == Seq::<char>::empty());
        assert(trimmed_start(s.push(w)) == trimmed_start(s.push(w).drop_first()));
    } else if white(s.first()) {
        trimmed_start_of_push(s.drop_first(), w);
        assert(s.push(w).drop_first() == s.drop_first().push(w));
    }
}

proof fn trimmed_of_push(s: Seq<char>, w: char)
    requires
        white(w),
    ensures
        trimmed(s.push(w)) == trimmed(s),
{
    trimmed_start_of_push(s, w);
    let t = trimmed_start(s);
    if t.len() > 0 {
        assert(t.push(w).drop_last() == t);
    } else {
        assert(t == Seq::<char>::empty());
    }
}

proof fn pieces_of_push(s: Seq<char>, w: char, c: char)
    requires
        w != c,
    ensures
        pieces(s, c).len() >= 1,
        pieces(s.push(w), c) == pieces(s, c).drop_last().push(pieces(s, c).last().push(w)),
    decreases s.len(),
{
    let i = first_at(s, c) as int;
    first_at_is_first(s, c);
    let t = s.push(w);
    if i < s.len() {
        first_at_unique(t, c, i);
        pieces_of_push(s.skip(i + 1), w, c);
        assert(t.take(i) == s.take(i));
        assert(t.skip(i + 1) == s.skip(i + 1).push(w));
        let rest = pieces(s.skip(i + 1), c);
        assert(pieces(s, c).drop_last() == seq![s.take(i)] + rest.drop_last());
        assert(pieces(s, c).last() == rest.last());
        assert(pieces(t, c) == pieces(s, c).drop_last().push(pieces(s, c).last().push(w)));
    } else {
        first_at_unique(t, c, t.len() as int);
        assert(pieces(t, c) == pieces(s, c).drop_last().push(pieces(s, c).last().push(w)));
    }
}

proof fn items_of_trimmed_start(s: Seq<char>, c: char)
    requires
        !white(c),
    ensures
        solid(pieces(trimmed_start(s), c)) == solid(pieces(s, c)),
    decreases s.len(),
{
    if s.len() > 0 && white(s.first()) {
        let t = s.drop_first();
        items_of_trimmed_start(t, c);
        let i = first_at(t, c) as int;
        first_at_is_first(t, c);
        assert(first_at(s, c) == 1 + i);
        let (u, v) = (pieces(s, c), pieces(t, c));
        let head = s.take(i + 1);
        assert(head.drop_first() == t.take(i));
        assert(trimmed(head) == trimmed(t.take(i)));
        if i < t.len() {
            assert(s.skip(i + 2) == t.skip(i + 1));
            assert(u[0] == head && v[0] == t.take(i));
            assert forall|k: int| 0 <= k < u.len() implies trimmed(#[trigger] u[k]) == trimmed(
                v[k],
            ) by {}
        } else {
            assert(head == s && t.take(i) == t);
            assert forall|k: int| 0 <= k < u.len() implies trimmed(#[trigger] u[k]) == trimmed(
                v[k],
            ) by {}
        }
        solid_of_same(u, v);
    }
}

proof fn items_of_trimmed_end(s: Seq<char>, c: char)
    requires
        !white(c),
    ensures
        solid(pieces(trimmed_end(s), c)) == solid(pieces(s, c)),
    decreases s.len(),
{
    if s.len() > 0 && white(s.last()) {
        let t = s.drop_last();
        items_of_trimmed_end(t, c);
        pieces_of_push(t, s.last(), c);
        assert(t.push(s.last()) == s);
        let (u, v) = (pieces(s, c), pieces(t, c));
        trimmed_of_push(v.last(), s.last());
        assert forall|k: int| 0 <= k < u.len() implies trimmed(#[trigger] u[k]) == trimmed(
            v[k],
        ) by {}
        solid_of_same(u, v);
    }
}

/// Trimming a list as a whole does not change its items.
pub proof fn items_of_trimmed(s: Seq<char>, c: char)
    requires
        !white(c),
    ensures
        solid(pieces(trimmed(s), c)) == solid(pieces(s, c)),
{
    items_of_trimmed_start(s, c);
    items_of_trimmed_end(trimmed_start(s), c);
}

/// Whether `c` does not stand in `s`.
pub open spec fn free_of(s: Seq<char>, c: char) -> bool {
    forall|i: int| 0 <= i < s.len() ==> s[i] != c
}

/// The pieces of a text hold no separator, and there is at least one.
pub proof fn pieces_are_apart(s: Seq<char>, c: char)
    ensures
        pieces(s, c).len() > 0,
        forall|i: int| 0 <= i < pieces(s, c).len() ==> free_of(#[trigger] pieces(s, c)[i], c),
    decreases s.len(),
{
    first_at_is_first(s, c);
    let i = first_at(s, c) as int;
    if i < s.len() {
        pieces_are_apart(s.skip(i + 1), c);
        let rest = pieces(s.skip(i + 1), c);
        assert forall|k: int| 0 <= k < pieces(s, c).len() implies free_of(
            #[trigger] pieces(s, c)[k],
            c,
        ) by {
            if k > 0 {
                assert(pieces(s, c)[k] == rest[k - 1]);
            } else {
                assert(pieces(s, c)[0] == s.take(i));
            }
        }
    }
}

/// Splitting undoes joining: texts without the separator come back as they were.
pub proof fn pieces_of_joined(v: Seq<Seq<char>>, c: char)
    requires
        v.len() > 0,
        forall|i: int| 0 <= i < v.len() ==> free_of(#[trigger] v[i], c),
    ensures
        pieces(joined(v, seq![c]), c) == v,
    decreases v.len(),
{
    let last = v.last();
    assert(free_of(v[v.len() - 1], c));
    first_at_unique(last, c, last.len() as int);
    assert(pieces(last, c) =~= seq![last]);
    if v.len() == 1 {
        assert(v =~= seq![last]);
    } else {
        let front = v.drop_last();
        assert forall|i: int| 0 <= i < front.len() implies free_of(#[trigger] front[i], c) by {
            assert(front[i] == v[i]);
        }
        pieces_of_joined(front, c);
        pieces_of_two(joined(front, seq![c]), last, c);
        assert(joined(v, seq![c]) =~= joined(front, seq![c]).push(c) + last);
        assert(front + seq![last] =~= v);
    }
}

/// Whether a text neither begins nor ends with white space, and is not empty.
pub open spec fn bounded(s: Seq<char>) -> bool {
    s.len() > 0 && !white(s.first()) && !white(s.last())
}

/// Whether a text is one word.
pub open spec fn one_word(s: Seq<char>) -> bool {
    s.len() > 0 && forall|i: int| 0 <= i < s.len() ==> !white(#[trigger] s[i])
}

/// Trimming leaves a text that has no white space at its ends.
pub proof fn trimming_leaves_what_is_bounded(s: Seq<char>)
    requires
        bounded(s),
    ensures
        trimmed(s) == s,
{
}

/// Trimming takes white space off the ends of a text and nothing else: what is left
/// is a part of it, has none at its ends, and all that went is white.
pub proof fn trimming_takes_white_space_alone(s: Seq<char>)
    ensures
        exists|a: int, b: int|
            {
                &&& 0 <= a <= b <= s.len()
                &&& trimmed(s) == #[trigger] s.subrange(a, b)
                &&& forall|i: int| 0 <= i < a || b <= i < s.len() ==> white(#[trigger] s[i])
            },
        trimmed(s).len() == 0 || bounded(trimmed(s)),
{
    let a = start_of(s);
    let t = trimmed_start(s);
    assert(t == s.skip(a));
    let b = end_of(t);
    assert(trimmed(s) == t.take(b));
    assert(t.take(b) =~= s.subrange(a, a + b));
    assert forall|i: int| 0 <= i < a || a + b <= i < s.len() implies white(#[trigger] s[i]) by {
        if i >= a + b {
            assert(t[i - a] == s[i]);
        }
    }
    assert(trimmed(s) == s.subrange(a, a + b) && 0 <= a <= a + b <= s.len());
    trimmed_start_shorter(s);
    if b > 0 {
        assert(t.take(b).first() == t.first() && t.take(b).last() == t[b - 1]);
    }
}

proof fn start_of(s: Seq<char>) -> (a: int)
    ensures
        0 <= a <= s.len(),
        trimmed_start(s) == s.skip(a),
        forall|i: int| 0 <= i < a ==> white(#[trigger] s[i]),
    decreases s.len(),
{
    if s.len() > 0 && white(s.first()) {
        let t = s.drop_first();
        let b = start_of(t);
        assert(t.skip(b) =~= s.skip(b + 1));
        assert forall|i: int| 0 <= i < b + 1 implies white(#[trigger] s[i]) by {
            if i > 0 {
                assert(t[i - 1] == s[i]);
            }
        }
        b + 1
    } else {
        assert(s.skip(0) =~= s);
        0
    }
}

proof fn end_of(s: Seq<char>) -> (b: int)
    ensures
        0 <= b <= s.len(),
        trimmed_end(s) == s.take(b),
        forall|i: int| b <= i < s.len() ==> white(#[trigger] s[i]),
        b > 0 ==> !white(s[b - 1]),
    decreases s.len(),
{
    if s.len() > 0 && white(s.last()) {
        let t = s.drop_last();
        let b = end_of(t);
        assert(t.take(b) =~= s.take(b));
        assert forall|i: int| b <= i < s.len() implies white(#[trigger] s[i]) by {
            if i < t.len() {
                assert(t[i] == s[i]);
            }
        }
        b
    } else {
        assert(s.take(s.len() as int) =~= s);
        s.len() as int
    }
}

/// Texts without white space at their ends are kept as they are.
pub proof fn what_is_bounded_is_solid(v: Seq<Seq<char>>)
    requires
        forall|i: int| 0 <= i < v.len() ==> bounded(#[trigger] v[i]),
    ensures
        solid(v) == v,
    decreases v.len(),
{
    if v.len() > 0 {
        let front = v.drop_last();
        assert forall|i: int| 0 <= i < front.len() implies bounded(#[trigger] front[i]) by {
            assert(front[i] == v[i]);
        }
        what_is_bounded_is_solid(front);
        assert(bounded(v[v.len() - 1]));
        assert(front.push(v.last()) =~= v);
    }
}

/// The words of two words with a space between them are these two.
pub proof fn words_of_two(a: Seq<char>, b: Seq<char>)
    requires
        one_word(a),
        one_word(b),
    ensures
        spaced(a + " "@ + b) == seq![a, b],
        bounded(a + " "@ + b),
{
    reveal_strlit(" ");
    let s = a + " "@ + b;
    let n = a.len() as int;
    assert(s[0] == a[0] && s[n] == ' ' && s[s.len() - 1] == b[b.len() - 1]);
    assert(!white(a[0]) && !white(b[b.len() - 1]) && !white(b[0]));
    assert forall|i: int| 0 <= i < n implies !white(s[i]) by {
        assert(s[i] == a[i]);
    }
    first_white_unique(s, n);
    assert(s.take(n) =~= a);
    let rest = s.skip(n);
    assert(rest.first() == ' ');
    assert(rest.drop_first() =~= b);
    assert(trimmed_start(b) == b);
    assert(trimmed_start(rest) == b);
    assert forall|i: int| 0 <= i < b.len() implies !white(b[i]) by {
    }
    first_white_unique(b, b.len() as int);
    assert(b.take(b.len() as int) =~= b);
    let none = b.skip(b.len() as int);
    assert(none =~= Seq::<char>::empty());
    assert(trimmed_start(none) == none);
    assert(spaced(none) =~= Seq::<Seq<char>>::empty());
    assert(spaced(rest) =~= seq![b]);
    assert(spaced(s) =~= seq![a, b]);
}

/// The words of a word, a space and more are that word and the words of the rest.
pub proof fn words_of_more(a: Seq<char>, rest: Seq<char>)
    requires
        one_word(a),
    ensures
        spaced(a + " "@ + rest) == seq![a] + spaced(rest),
{
    reveal_strlit(" ");
    let s = a + " "@ + rest;
    let n = a.len() as int;
    assert(s[0] == a[0] && s[n] == ' ');
    assert(!white(a[0]));
    assert forall|i: int| 0 <= i < n implies !white(s[i]) by {
        assert(s[i] == a[i]);
    }
    first_white_unique(s, n);
    assert(s.take(n) =~= a);
    let tail = s.skip(n);
    assert(tail.first() == ' ');
    assert(tail.drop_first() =~= rest);
    assert(trimmed_start(tail) == trimmed_start(rest));
    assert(spaced(tail) == spaced(rest));
}

/// Trimming twice is trimming once.
pub proof fn trimming_is_done_at_once(s: Seq<char>)
    ensures
        trimmed(trimmed(s)) == trimmed(s),
{
    trimming_takes_white_space_alone(s);
    if trimmed(s).len() > 0 {
        trimming_leaves_what_is_bounded(trimmed(s));
    }
}

/// The first of two parts with `c` between them is the part before the first `c`.
pub proof fn parting_finds_the_parts(a: Seq<char>, b: Seq<char>, c: char)
    requires
        free_of(a, c),
    ensures
        parted(a + seq![c] + b, c) == Some((a, b)),
{
    let s = a + seq![c] + b;
    let n = a.len() as int;
    assert(s[n] == c);
    assert forall|i: int| 0 <= i < n implies s[i] != c by {
        assert(s[i] == a[i]);
    }
    first_at_unique(s, c, n);
    assert(s.take(n) =~= a);
    assert(s.skip(n + 1) =~= b);
}

/// A text without `c` has no parts.
pub proof fn parting_finds_none(s: Seq<char>, c: char)
    requires
        free_of(s, c),
    ensures
        parted(s, c) is None,
        pieces(s, c) == seq![s],
{
    first_at_unique(s, c, s.len() as int);
    assert(pieces(s, c) =~= seq![s]);
}

/// The digits of a number spell it.
pub proof fn digits_spell_their_number(n: nat)
    ensures
        digits(n).len() > 0,
        all_digits(digits(n)),
        decimal_value(digits(n)) == n,
    decreases n,
{
    if n < 10 {
        let d = digits(n);
        assert(d.drop_last() =~= Seq::<char>::empty());
        assert(d.last() as int == 48 + n);
        assert(decimal_value(d.drop_last()) == 0);
        assert(decimal_value(d) == n);
    } else {
        digits_spell_their_number(n / 10);
        let front = digits(n / 10);
        let d = digits(n);
        assert(d.drop_last() =~= front);
        assert(d.last() as int == 48 + n % 10);
        assert(decimal_value(d) == (n / 10) * 10 + n % 10);
        assert forall|i: int| 0 <= i < d.len() implies digit(#[trigger] d[i]) by {
            if i < front.len() {
                assert(d[i] == front[i]);
            }
        }
    }
}

/// A count reads back as it is written, with or without a plus sign before it.
pub proof fn a_written_count_reads_back(n: usize)
    ensures
        count_of(digits(n as nat)) == Some(n),
        count_of(seq!['+'] + digits(n as nat)) == Some(n),
{
    let d = digits(n as nat);
    digits_spell_their_number(n as nat);
    assert(digit(d[0]));
    assert((seq!['+'] + d).drop_first() =~= d);
}

/// What counts is made of digits, after one plus sign at most.
pub proof fn what_counts_is_digits(s: Seq<char>, i: int)
    requires
        count_of(s) is Some,
        0 <= i < s.len(),
    ensures
        48 <= s[i] as int <= 57 || (i == 0 && s[i] == '+' && s.len() > 1),
{
    let d = unsigned(s);
    if s.first() == '+' {
        if i > 0 {
            assert(d[i - 1] == s[i]);
            assert(digit(d[i - 1]));
        }
    } else {
        assert(digit(d[i]));
    }
}

/// Lower case holds no ASCII capital, leaves everything else, and is the same for
/// texts that differ in case alone.
pub proof fn lower_case_ignores_case(s: Seq<char>)
    ensures
        lowered(s).len() == s.len(),
        forall|i: int| 0 <= i < s.len() ==> !(65 <= (#[trigger] lowered(s)[i]) as int <= 90),
        forall|i: int|
            0 <= i < s.len() && !(65 <= (#[trigger] s[i]) as int <= 90) ==> lowered(s)[i] == s[i],
        lowered(raised(s)) == lowered(s),
        lowered(lowered(s)) == lowered(s),
{
    assert(lowered(raised(s)) =~= lowered(s));
    assert(lowered(lowered(s)) =~= lowered(s));
}

/// A character is replaced wherever it stands, and nothing else is: what is free of
/// it stays, it alone gives its replacement, and two texts are replaced as their
/// parts are.
pub proof fn a_character_is_replaced_wherever_it_stands(
    a: Seq<char>,
    b: Seq<char>,
    c: char,
    to: Seq<char>,
)
    ensures
        free_of(a, c) ==> replaced_char(a, c, to) == a,
        replaced_char(seq![c], c, to) == to,
        replaced_char(a + b, c, to) == replaced_char(a, c, to) + replaced_char(b, c, to),
    decreases a.len() + b.len(),
{
    assert(seq![c].drop_last() =~= Seq::empty());
    reveal_with_fuel(replaced_char, 2);
    assert(replaced_char(seq![c], c, to) =~= to);
    if b.len() > 0 {
        let front = b.drop_last();
        a_character_is_replaced_wherever_it_stands(a, front, c, to);
        assert((a + b).drop_last() =~= a + front);
        let last = if b.last() == c {
            to
        } else {
            seq![b.last()]
        };
        assert(replaced_char(a, c, to) + (replaced_char(front, c, to) + last) =~= replaced_char(
            a,
            c,
            to,
        ) + replaced_char(front, c, to) + last);
    } else {
        assert(a + b =~= a);
        assert(replaced_char(a, c, to) + replaced_char(b, c, to) =~= replaced_char(a, c, to));
        if a.len() > 0 && free_of(a, c) {
            let front = a.drop_last();
            assert forall|i: int| 0 <= i < front.len() implies front[i] != c by {
                assert(front[i] == a[i]);
            }
            a_character_is_replaced_wherever_it_stands(front, b, c, to);
            assert(a[a.len() - 1] != c);
            assert(front + seq![a.last()] =~= a);
        } else if a.len() == 0 {
            assert(replaced_char(a, c, to) =~= a);
        }
    }
}

/// The first place where a text stands is replaced, and what is before it stays.
pub proof fn a_text_is_replaced_where_it_first_stands(
    a: Seq<char>,
    p: Seq<char>,
    b: Seq<char>,
    to: Seq<char>,
)
    requires
        p.len() > 0,
        forall|i: int|
            0 <= i < a.len() ==> #[trigger] (a + p + b).subrange(i, i + p.len()) != p,
    ensures
        replaced(a + p + b, p, to) == a + to + replaced(b, p, to),
    decreases a.len(),
{
    let s = a + p + b;
    let n = p.len() as int;
    if a.len() == 0 {
        assert(s.take(n) =~= p);
        assert(s.skip(n) =~= b);
        assert(a + to + replaced(b, p, to) =~= to + replaced(b, p, to));
    } else {
        let rest = a.drop_first();
        let tail = rest + p + b;
        assert(s.subrange(0, 0 + n) != p);
        assert(s.take(n) =~= s.subrange(0, 0 + n));
        assert(s.drop_first() =~= tail);
        assert forall|i: int| 0 <= i < rest.len() implies #[trigger] tail.subrange(
            i,
            i + p.len(),
        ) != p by {
            assert(tail.subrange(i, i + n) =~= s.subrange(i + 1, i + 1 + n));
        }
        a_text_is_replaced_where_it_first_stands(rest, p, b, to);
        assert(seq![s.first()] + (rest + to + replaced(b, p, to)) =~= a + to + replaced(b, p, to));
    }
}

/// A text in which another does not stand stays as it is.
pub proof fn what_does_not_stand_is_not_replaced(s: Seq<char>, p: Seq<char>, to: Seq<char>)
    requires
        !holds(s, p),
    ensures
        replaced(s, p, to) == s,
    decreases s.len(),
{
    if p.len() > 0 && s.len() >= p.len() {
        let n = p.len() as int;
        assert(s.subrange(0, 0 + n) =~= s.take(n));
        let rest = s.drop_first();
        if holds(rest, p) {
            let i = choose|i: int|
                0 <= i <= rest.len() - p.len() && #[trigger] rest.subrange(i, i + p.len()) == p;
            assert(s.subrange(i + 1, i + 1 + n) =~= rest.subrange(i, i + n));
        }
        what_does_not_stand_is_not_replaced(rest, p, to);
        assert(seq![s.first()] + rest =~= s);
    }
}

} // verus!
