//! Strings as sequences of characters.
use vstd::prelude::*;
use vstd::string::*;

verus! {

broadcast use {vstd::string::group_string_axioms, vstd::seq_lib::group_seq_properties};

/// `String::push` appends one character.
pub assume_specification[ String::push ](s: &mut String, c: char)
    ensures
        final(s)@ == old(s)@.push(c),
;

/// The texts held by a sequence of strings.
pub open spec fn texts(v: Seq<String>) -> Seq<Seq<char>> {
    Seq::new(v.len(), |i: int| v[i]@)
}

/// The characters of a string, in order.
pub fn chars_of(s: &str) -> (r: Vec<char>)
    ensures
        r@ == s@,
{
    let mut out: Vec<char> = Vec::new();
    for c in it: s.chars()
        invariant
            out@ == it.seq().take(it.index()),
            it.seq() == s@,
    {
        out.push(c);
    }
    assert(s@.take(s@.len() as int) == s@);
    out
}

/// The string made of characters `from..to`.
pub fn text_from(v: &Vec<char>, from: usize, to: usize) -> (r: String)
    requires
        from <= to <= v.len(),
    ensures
        r@ == v@.subrange(from as int, to as int),
{
    let mut out = String::new();
    let mut i: usize = from;
    while i < to
        invariant
            from <= i <= to <= v.len(),
            out@ == v@.subrange(from as int, i as int),
        decreases to - i,
    {
        out.push(v[i]);
        assert(v@.subrange(from as int, i + 1) == v@.subrange(from as int, i as int).push(v@[i as int]));
        i += 1;
    }
    out
}

/// Whether two strings hold the same characters.
pub fn same(a: &str, b: &str) -> (r: bool)
    ensures
        r == (a@ == b@),
{
    a.to_owned() == b.to_owned()
}

/// `a` followed by `b`.
pub fn joined(a: &str, b: &str) -> (r: String)
    ensures
        r@ == a@ + b@,
{
    let mut out = a.to_owned();
    out.append(b);
    out
}

pub proof fn lemma_texts_push(v: Seq<String>, s: String)
    ensures
        texts(v.push(s)) == texts(v).push(s@),
{
    assert(texts(v.push(s)) =~= texts(v).push(s@));
}

/// A copy of a list of strings.
pub fn clone_texts(v: &Vec<String>) -> (r: Vec<String>)
    ensures
        texts(r@) == texts(v@),
{
    subtexts(v, 0, v.len())
}

/// A copy of the strings at `from..to`.
pub fn subtexts(v: &Vec<String>, from: usize, to: usize) -> (r: Vec<String>)
    requires
        from <= to <= v.len(),
    ensures
        texts(r@) == texts(v@).subrange(from as int, to as int),
{
    let mut out: Vec<String> = Vec::new();
    let mut i: usize = from;
    while i < to
        invariant
            from <= i <= to <= v.len(),
            texts(out@) == texts(v@).subrange(from as int, i as int),
        decreases to - i,
    {
        proof {
            lemma_texts_push(out@, v@[i as int]);
            assert(texts(v@).subrange(from as int, i + 1) =~= texts(v@).subrange(from as int, i as int).push(v@[i as int]@));
        }
        out.push(v[i].clone());
        i += 1;
    }
    out
}

/// Whether two lists hold the same strings in the same order.
pub fn same_texts(a: &Vec<String>, b: &Vec<String>) -> (r: bool)
    ensures
        r == (texts(a@) == texts(b@)),
{
    if a.len() != b.len() {
        assert(texts(a@).len() != texts(b@).len());
        return false;
    }
    texts_start_with(a, b)
}

/// Whether the strings of `prefix` are the first strings of `v`.
pub fn texts_start_with(v: &Vec<String>, prefix: &Vec<String>) -> (r: bool)
    ensures
        r == texts(prefix@).is_prefix_of(texts(v@)),
        a_prefix_of_its_own_length(texts(prefix@), texts(v@)),
{
    if prefix.len() > v.len() {
        return false;
    }
    let mut i: usize = 0;
    while i < prefix.len()
        invariant
            i <= prefix.len() <= v.len(),
            forall|j: int| 0 <= j < i ==> texts(v@)[j] == #[trigger] texts(prefix@)[j],
        decreases prefix.len() - i,
    {
        if !same(&v[i], &prefix[i]) {
            assert(texts(v@).subrange(0, prefix.len() as int)[i as int] != texts(prefix@)[i as int]);
            return false;
        }
        i += 1;
    }
    assert(texts(v@).subrange(0, prefix.len() as int) =~= texts(prefix@));
    if prefix.len() == v.len() {
        assert(texts(v@) =~= texts(prefix@));
    }
    true
}

pub open spec fn a_prefix_of_its_own_length<A>(prefix: Seq<A>, s: Seq<A>) -> bool {
    prefix.len() == s.len() ==> (prefix.is_prefix_of(s) <==> prefix == s)
}

/// Whether a list holds a string.
pub fn holds_text(v: &Vec<String>, s: &str) -> (r: bool)
    ensures
        r == texts(v@).contains(s@),
{
    let mut i: usize = 0;
    while i < v.len()
        invariant
            i <= v.len(),
            forall|j: int| 0 <= j < i ==> #[trigger] texts(v@)[j] != s@,
        decreases v.len() - i,
    {
        if same(&v[i], s) {
            assert(texts(v@)[i as int] == s@);
            return true;
        }
        i += 1;
    }
    false
}

pub fn same_numbers(a: &Vec<usize>, b: &Vec<usize>) -> (r: bool)
    ensures
        r == (a@ == b@),
{
    if a.len() != b.len() {
        return false;
    }
    numbers_start_with(a, b)
}

pub fn numbers_start_with(v: &Vec<usize>, prefix: &Vec<usize>) -> (r: bool)
    ensures
        r == prefix@.is_prefix_of(v@),
        a_prefix_of_its_own_length(prefix@, v@),
{
    if prefix.len() > v.len() {
        return false;
    }
    let mut i: usize = 0;
    while i < prefix.len()
        invariant
            i <= prefix.len() <= v.len(),
            forall|j: int| 0 <= j < i ==> v@[j] == #[trigger] prefix@[j],
        decreases prefix.len() - i,
    {
        if v[i] != prefix[i] {
            assert(v@.subrange(0, prefix.len() as int)[i as int] != prefix@[i as int]);
            return false;
        }
        i += 1;
    }
    assert(v@.subrange(0, prefix.len() as int) =~= prefix@);
    if prefix.len() == v.len() {
        assert(v@ =~= prefix@);
    }
    true
}

pub fn subnumbers(v: &Vec<usize>, from: usize, to: usize) -> (r: Vec<usize>)
    requires
        from <= to <= v.len(),
    ensures
        r@ == v@.subrange(from as int, to as int),
{
    let mut out: Vec<usize> = Vec::new();
    let mut i: usize = from;
    while i < to
        invariant
            from <= i <= to <= v.len(),
            out@ == v@.subrange(from as int, i as int),
        decreases to - i,
    {
        out.push(v[i]);
        i += 1;
    }
    out
}

pub fn clone_numbers(v: &Vec<usize>) -> (r: Vec<usize>)
    ensures
        r@ == v@,
{
    subnumbers(v, 0, v.len())
}

/// `n` ones.
pub fn ones(n: usize) -> (r: Vec<usize>)
    ensures
        r@ == Seq::new(n as nat, |i: int| 1usize),
{
    let mut out: Vec<usize> = Vec::new();
    while out.len() < n
        invariant
            out.len() <= n,
            out@ == Seq::new(out@.len(), |i: int| 1usize),
        decreases n - out.len(),
    {
        out.push(1);
    }
    out
}

/// The pieces of `s` between occurrences of `sep`; one empty piece for an empty text.
pub open spec fn pieces(s: Seq<char>, sep: char) -> Seq<Seq<char>>
    decreases s.len(),
{
    if s.len() == 0 {
        seq![Seq::empty()]
    } else {
        let before = pieces(s.drop_last(), sep);
        if s.last() == sep {
            before.push(Seq::empty())
        } else {
            before.update(before.len() - 1, before.last().push(s.last()))
        }
    }
}

/// The parts with `sep` between each two of them.
pub open spec fn joined_by(parts: Seq<Seq<char>>, sep: Seq<char>) -> Seq<char>
    decreases parts.len(),
{
    if parts.len() == 0 {
        Seq::empty()
    } else if parts.len() == 1 {
        parts[0]
    } else {
        joined_by(parts.drop_last(), sep) + sep + parts.last()
    }
}

pub proof fn lemma_pieces_not_empty(s: Seq<char>, sep: char)
    ensures
        pieces(s, sep).len() > 0,
    decreases s.len(),
{
    if s.len() > 0 {
        lemma_pieces_not_empty(s.drop_last(), sep);
    }
}

proof fn lemma_joined_by_last(parts: Seq<Seq<char>>, sep: Seq<char>, c: char)
    requires
        parts.len() > 0,
    ensures
        joined_by(parts.update(parts.len() - 1, parts.last().push(c)), sep) == joined_by(parts, sep).push(c),
{
    let changed = parts.update(parts.len() - 1, parts.last().push(c));
    if parts.len() > 1 {
        assert(changed.drop_last() =~= parts.drop_last());
        assert(joined_by(changed, sep) =~= joined_by(parts, sep).push(c));
    }
}

/// Joining the pieces of a text with the separator gives the text back.
pub proof fn lemma_pieces_joined(s: Seq<char>, sep: char)
    ensures
        joined_by(pieces(s, sep), seq![sep]) == s,
    decreases s.len(),
{
    if s.len() > 0 {
        let before = pieces(s.drop_last(), sep);
        lemma_pieces_joined(s.drop_last(), sep);
        lemma_pieces_not_empty(s.drop_last(), sep);
        if s.last() == sep {
            assert(before.push(Seq::<char>::empty()).drop_last() =~= before);
            assert(joined_by(pieces(s, sep), seq![sep]) =~= s.drop_last().push(sep));
        } else {
            lemma_joined_by_last(before, seq![sep], s.last());
        }
        assert(s =~= s.drop_last().push(s.last()));
    }
}

/// Splits a text at every `sep`.
pub fn split_at_char(s: &str, sep: char) -> (r: Vec<String>)
    ensures
        texts(r@) == pieces(s@, sep),
        r.len() > 0,
{
    let chars = chars_of(s);
    let mut out: Vec<String> = Vec::new();
    let mut current = String::new();
    let mut i: usize = 0;
    assert(s@.take(0).len() == 0);
    assert(texts(out@).push(current@) =~= pieces(s@.take(0), sep));
    while i < chars.len()
        invariant
            i <= chars.len(),
            chars@ == s@,
            texts(out@).push(current@) == pieces(s@.take(i as int), sep),
        decreases chars.len() - i,
    {
        let c = chars[i];
        assert(s@.take(i + 1).drop_last() =~= s@.take(i as int));
        let ghost before = texts(out@).push(current@);
        if c == sep {
            proof {
                lemma_texts_push(out@, current);
            }
            out.push(current);
            current = String::new();
        } else {
            proof {
                assert(before.update(before.len() - 1, before.last().push(c)) =~= texts(out@).push(current@.push(c)));
            }
            current.push(c);
        }
        i += 1;
    }
    assert(s@.take(i as int) =~= s@);
    proof {
        lemma_texts_push(out@, current);
    }
    out.push(current);
    out
}

/// Joins texts with a separator.
pub fn join_texts(parts: &Vec<String>, sep: &str) -> (r: String)
    ensures
        r@ == joined_by(texts(parts@), sep@),
{
    let mut out = String::new();
    let mut i: usize = 0;
    while i < parts.len()
        invariant
            i <= parts.len(),
            out@ == joined_by(texts(parts@).take(i as int), sep@),
        decreases parts.len() - i,
    {
        let ghost whole = texts(parts@).take(i + 1);
        assert(whole.drop_last() =~= texts(parts@).take(i as int));
        assert(whole.last() == parts@[i as int]@);
        if i > 0 {
            out.append(sep);
        }
        out.append(&parts[i]);
        assert(out@ =~= joined_by(whole, sep@));
        i += 1;
    }
    assert(texts(parts@).take(i as int) =~= texts(parts@));
    out
}

/// The lower-case form of an ASCII letter; any other character as it is.
pub open spec fn ascii_lower_char(c: char) -> char {
    if 'A' <= c && c <= 'Z' {
        ((c as u32 + 32) as u8) as char
    } else {
        c
    }
}

pub open spec fn ascii_lower(s: Seq<char>) -> Seq<char> {
    Seq::new(s.len(), |i: int| ascii_lower_char(s[i]))
}

pub fn to_ascii_lower(s: &str) -> (r: String)
    ensures
        r@ == ascii_lower(s@),
{
    let chars = chars_of(s);
    let mut out = String::new();
    let mut i: usize = 0;
    while i < chars.len()
        invariant
            i <= chars.len(),
            chars@ == s@,
            out@ == ascii_lower(s@).take(i as int),
        decreases chars.len() - i,
    {
        let c = chars[i];
        let l = if 'A' <= c && c <= 'Z' {
            ((c as u32 + 32) as u8) as char
        } else {
            c
        };
        out.push(l);
        assert(ascii_lower(s@).take(i + 1) =~= ascii_lower(s@).take(i as int).push(l));
        i += 1;
    }
    assert(ascii_lower(s@).take(i as int) =~= ascii_lower(s@));
    out
}

/// The characters with the Unicode property `White_Space`.
pub open spec fn char_is_whitespace(c: char) -> bool {
    let n = c as u32;
    ||| 0x9 <= n <= 0xd
    ||| n == 0x20
    ||| n == 0x85
    ||| n == 0xa0
    ||| n == 0x1680
    ||| 0x2000 <= n <= 0x200a
    ||| n == 0x2028
    ||| n == 0x2029
    ||| n == 0x202f
    ||| n == 0x205f
    ||| n == 0x3000
}

/// `char::is_whitespace`: whether a character has the Unicode property `White_Space`, which the contract
/// lists.
#[verifier::external_body]
pub(crate) fn is_whitespace(c: char) -> (r: bool)
    ensures
        r == char_is_whitespace(c),
{
    c.is_whitespace()
}

/// `t` is `s` without the longest runs of white space at both its ends.
pub open spec fn is_trimmed(s: Seq<char>, t: Seq<char>) -> bool {
    exists|from: int, to: int| #![trigger s.subrange(from, to)] trims_to(s, from, to) && t == s.subrange(from, to)
}

/// `from..to` is what is left of `s` without white space at both its ends; an empty range at
/// the end where there is nothing else.
pub open spec fn trims_to(s: Seq<char>, from: int, to: int) -> bool {
    &&& 0 <= from <= to <= s.len()
    &&& forall|i: int| 0 <= i < from ==> char_is_whitespace(#[trigger] s[i])
    &&& forall|i: int| to <= i < s.len() ==> char_is_whitespace(#[trigger] s[i])
    &&& from < to ==> !char_is_whitespace(s[from]) && !char_is_whitespace(s[to - 1])
    &&& from == to ==> from == s.len()
}

/// A text has one trimmed form.
pub proof fn lemma_trims_once(s: Seq<char>, a: int, b: int, c: int, d: int)
    requires
        trims_to(s, a, b),
        trims_to(s, c, d),
    ensures
        a == c,
        b == d,
{
    if a < b {
        assert(!char_is_whitespace(s[a]) && !char_is_whitespace(s[b - 1]));
    }
    if c < d {
        assert(!char_is_whitespace(s[c]) && !char_is_whitespace(s[d - 1]));
    }
}

/// The text without the white space at both its ends.
pub open spec fn trimmed(s: Seq<char>) -> Seq<char> {
    choose|t: Seq<char>| is_trimmed(s, t)
}

pub proof fn lemma_trimmed(s: Seq<char>, from: int, to: int)
    requires
        trims_to(s, from, to),
    ensures
        trimmed(s) == s.subrange(from, to),
{
    assert(is_trimmed(s, s.subrange(from, to)));
    let t = trimmed(s);
    let (a, b) = choose|a: int, b: int| #![trigger s.subrange(a, b)] trims_to(s, a, b) && t == s.subrange(a, b);
    lemma_trims_once(s, from, to, a, b);
}

/// Drops the white space at both ends.
pub fn trim(s: &str) -> (r: String)
    ensures
        r@ == trimmed(s@),
{
    let chars = chars_of(s);
    let mut from: usize = 0;
    while from < chars.len() && is_whitespace(chars[from])
        invariant
            from <= chars.len(),
            forall|i: int| 0 <= i < from ==> char_is_whitespace(#[trigger] chars@[i]),
        decreases chars.len() - from,
    {
        from += 1;
    }
    let mut to: usize = chars.len();
    while to > from && is_whitespace(chars[to - 1])
        invariant
            from <= to <= chars.len(),
            from < chars.len() ==> !char_is_whitespace(chars@[from as int]),
            forall|i: int| to <= i < chars.len() ==> char_is_whitespace(#[trigger] chars@[i]),
        decreases to - from,
    {
        to -= 1;
    }
    proof {
        lemma_trimmed(s@, from as int, to as int);
    }
    text_from(&chars, from, to)
}

/// Whether `part` occurs in `s`.
pub open spec fn occurs(s: Seq<char>, part: Seq<char>) -> bool {
    exists|i: int| #[trigger] occurs_at(s, part, i)
}

pub open spec fn occurs_at(s: Seq<char>, part: Seq<char>, i: int) -> bool {
    0 <= i && i + part.len() <= s.len() && s.subrange(i, i + part.len()) == part
}

fn part_at(s: &Vec<char>, part: &Vec<char>, at: usize) -> (r: bool)
    requires
        at <= s.len(),
    ensures
        r == occurs_at(s@, part@, at as int),
{
    if part.len() > s.len() - at {
        return false;
    }
    let mut j: usize = 0;
    while j < part.len()
        invariant
            j <= part.len() <= s.len() - at,
            forall|k: int| 0 <= k < j ==> s@[at + k] == #[trigger] part@[k],
        decreases part.len() - j,
    {
        if s[at + j] != part[j] {
            assert(s@.subrange(at as int, at + part.len())[j as int] != part@[j as int]);
            return false;
        }
        j += 1;
    }
    assert(s@.subrange(at as int, at + part.len()) =~= part@);
    true
}

/// The first place at or after `from` where `part` occurs.
pub fn find_part(s: &Vec<char>, part: &str, from: usize) -> (r: Option<usize>)
    requires
        from <= s.len(),
    ensures
        match r {
            Some(at) => from <= at && occurs_at(s@, part@, at as int) && (forall|i: int|
                from <= i < at ==> !#[trigger] occurs_at(s@, part@, i)),
            None => forall|i: int| from <= i ==> !#[trigger] occurs_at(s@, part@, i),
        },
{
    let part_chars = chars_of(part);
    let mut at: usize = from;
    while at < s.len()
        invariant
            from <= at <= s.len(),
            part_chars@ == part@,
            forall|i: int| from <= i < at ==> !#[trigger] occurs_at(s@, part@, i),
        decreases s.len() - at,
    {
        if part_at(s, &part_chars, at) {
            return Some(at);
        }
        at += 1;
    }
    if part_at(s, &part_chars, at) {
        Some(at)
    } else {
        None
    }
}

pub fn contains_part(s: &str, part: &str) -> (r: bool)
    ensures
        r == occurs(s@, part@),
{
    let chars = chars_of(s);
    let found = find_part(&chars, part, 0);
    match found {
        Some(at) => true,
        None => {
            assert forall|i: int| !occurs_at(s@, part@, i) by {
                if 0 <= i {
                }
            }
            false
        },
    }
}

pub fn starts_with(s: &str, prefix: &str) -> (r: bool)
    ensures
        r == prefix@.is_prefix_of(s@),
{
    let chars = chars_of(s);
    let part_chars = chars_of(prefix);
    part_at(&chars, &part_chars, 0)
}

pub fn ends_with(s: &str, suffix: &str) -> (r: bool)
    ensures
        r == suffix@.is_suffix_of(s@),
{
    let chars = chars_of(s);
    let part_chars = chars_of(suffix);
    if part_chars.len() > chars.len() {
        return false;
    }
    part_at(&chars, &part_chars, chars.len() - part_chars.len())
}

/// Whether `a` comes strictly before `b`, character by character.
pub open spec fn text_less(a: Seq<char>, b: Seq<char>) -> bool
    decreases a.len(),
{
    if a.len() == 0 {
        b.len() > 0
    } else if b.len() == 0 {
        false
    } else if a[0] == b[0] {
        text_less(a.drop_first(), b.drop_first())
    } else {
        a[0] < b[0]
    }
}

pub fn less(a: &str, b: &str) -> (r: bool)
    ensures
        r == text_less(a@, b@),
{
    let x = chars_of(a);
    let y = chars_of(b);
    let mut i: usize = 0;
    assert(a@.skip(0) =~= a@ && b@.skip(0) =~= b@);
    while i < x.len() && i < y.len() && x[i] == y[i]
        invariant
            x@ == a@,
            y@ == b@,
            i <= x.len(),
            i <= y.len(),
            text_less(a@.skip(i as int), b@.skip(i as int)) == text_less(a@, b@),
        decreases x.len() - i,
    {
        assert(a@.skip(i as int).drop_first() =~= a@.skip(i + 1));
        assert(b@.skip(i as int).drop_first() =~= b@.skip(i + 1));
        i += 1;
    }
    if i == y.len() {
        false
    } else if i == x.len() {
        true
    } else {
        x[i] < y[i]
    }
}

pub proof fn lemma_text_less_total(a: Seq<char>, b: Seq<char>)
    ensures
        !(text_less(a, b) && text_less(b, a)),
        text_less(a, b) || text_less(b, a) || a == b,
        a == b ==> !text_less(a, b),
    decreases a.len(),
{
    if a.len() > 0 && b.len() > 0 && a[0] == b[0] {
        lemma_text_less_total(a.drop_first(), b.drop_first());
        assert(a =~= seq![a[0]] + a.drop_first());
        assert(b =~= seq![b[0]] + b.drop_first());
    } else if a.len() == 0 && b.len() == 0 {
        assert(a =~= b);
    }
}

pub proof fn lemma_text_less_transitive(a: Seq<char>, b: Seq<char>, c: Seq<char>)
    requires
        text_less(a, b),
        text_less(b, c),
    ensures
        text_less(a, c),
    decreases a.len(),
{
    if a.len() > 0 && b.len() > 0 && c.len() > 0 && a[0] == b[0] && b[0] == c[0] {
        lemma_text_less_transitive(a.drop_first(), b.drop_first(), c.drop_first());
    }
}

/// A text with every `from` replaced by `to`.
pub open spec fn with_char(s: Seq<char>, from: char, to: char) -> Seq<char> {
    Seq::new(
        s.len(),
        |i: int|
            if s[i] == from {
                to
            } else {
                s[i]
            },
    )
}

pub fn replace_char(s: &str, from: char, to: char) -> (r: String)
    ensures
        r@ == with_char(s@, from, to),
{
    let chars = chars_of(s);
    let mut out = String::new();
    let mut i: usize = 0;
    while i < chars.len()
        invariant
            i <= chars.len(),
            chars@ == s@,
            out@ == with_char(s@, from, to).take(i as int),
        decreases chars.len() - i,
    {
        let c = if chars[i] == from {
            to
        } else {
            chars[i]
        };
        out.push(c);
        assert(with_char(s@, from, to).take(i + 1) =~= with_char(s@, from, to).take(i as int).push(c));
        i += 1;
    }
    assert(with_char(s@, from, to).take(i as int) =~= with_char(s@, from, to));
    out
}

/// The character of a decimal digit.
pub open spec fn digit_char(d: nat) -> char {
    ((48 + d) as u8) as char
}

/// A number in decimal digits.
pub open spec fn decimal(n: nat) -> Seq<char>
    decreases n,
{
    if n < 10 {
        seq![digit_char(n)]
    } else {
        decimal(n / 10).push(digit_char(n % 10))
    }
}

/// Writes a number in decimal digits.
pub fn to_decimal(n: u128) -> (r: String)
    ensures
        r@ == decimal(n as nat),
    decreases n,
{
    if n < 10 {
        let mut out = String::new();
        out.push(((48 + n) as u8) as char);
        assert(out@ =~= seq![digit_char(n as nat)]);
        out
    } else {
        let mut out = to_decimal(n / 10);
        out.push(((48 + n % 10) as u8) as char);
        out
    }
}

proof fn lemma_digit_char(a: nat, b: nat)
    requires
        a < 10,
        b < 10,
        digit_char(a) == digit_char(b),
    ensures
        a == b,
{
    let x = (48 + a) as u8;
    let y = (48 + b) as u8;
    assert((x as char) as u32 == x as u32 && (y as char) as u32 == y as u32);
}

proof fn lemma_decimal_len(n: nat)
    ensures
        decimal(n).len() > 0,
        n >= 10 ==> decimal(n).len() > 1,
    decreases n,
{
    if n >= 10 {
        lemma_decimal_len(n / 10);
    }
}

/// Different numbers are written differently.
pub proof fn law_decimal_is_injective(a: nat, b: nat)
    requires
        decimal(a) == decimal(b),
    ensures
        a == b,
    decreases a,
{
    lemma_decimal_len(a);
    lemma_decimal_len(b);
    if a < 10 && b < 10 {
        assert(decimal(a)[0] == digit_char(a) && decimal(b)[0] == digit_char(b));
        lemma_digit_char(a, b);
    } else if a >= 10 && b >= 10 {
        let x = decimal(a / 10);
        let y = decimal(b / 10);
        assert(decimal(a).last() == digit_char(a % 10) && decimal(b).last() == digit_char(b % 10));
        lemma_digit_char(a % 10, b % 10);
        assert(decimal(a).drop_last() =~= x);
        assert(decimal(b).drop_last() =~= y);
        law_decimal_is_injective(a / 10, b / 10);
    }
}

/// The text without the white space at its end.
pub open spec fn trimmed_end(s: Seq<char>) -> Seq<char>
    decreases s.len(),
{
    if s.len() > 0 && char_is_whitespace(s.last()) {
        trimmed_end(s.drop_last())
    } else {
        s
    }
}

/// Drops the white space at the end.
pub fn trim_end(s: &str) -> (r: String)
    ensures
        r@ == trimmed_end(s@),
{
    let chars = chars_of(s);
    let mut to: usize = chars.len();
    assert(s@.take(to as int) =~= s@);
    while to > 0 && is_whitespace(chars[to - 1])
        invariant
            to <= chars.len(),
            chars@ == s@,
            trimmed_end(s@.take(to as int)) == trimmed_end(s@),
        decreases to,
    {
        assert(s@.take(to as int).drop_last() =~= s@.take(to - 1));
        to -= 1;
    }
    let r = text_from(&chars, 0, to);
    assert(r@ =~= s@.take(to as int));
    r
}

/// Adds the characters of a text.
pub fn push_chars(out: &mut Vec<char>, s: &str)
    ensures
        final(out)@ == old(out)@ + s@,
{
    let mut chars = chars_of(s);
    out.append(&mut chars);
}

/// The first place at or after `from` that holds `c`, or the end.
pub open spec fn first_of(s: Seq<char>, c: char, from: int) -> int
    decreases s.len() - from,
{
    if from < 0 || from >= s.len() {
        s.len() as int
    } else if s[from] == c {
        from
    } else {
        first_of(s, c, from + 1)
    }
}

/// What stands before and after the first `c`.
pub open spec fn cut(s: Seq<char>, c: char) -> Option<(Seq<char>, Seq<char>)> {
    let at = first_of(s, c, 0);
    if at >= s.len() {
        None
    } else {
        Some((s.take(at), s.skip(at + 1)))
    }
}

/// Cuts a text at the first `c`.
pub fn split_once(s: &str, c: char) -> (r: Option<(String, String)>)
    ensures
        match r {
            Some((a, b)) => cut(s@, c) == Some((a@, b@)),
            None => cut(s@, c) is None,
        },
{
    let chars = chars_of(s);
    let mut i: usize = 0;
    while i < chars.len()
        invariant
            i <= chars.len(),
            chars@ == s@,
            first_of(s@, c, 0) == first_of(s@, c, i as int),
        decreases chars.len() - i,
    {
        if chars[i] == c {
            let a = text_from(&chars, 0, i);
            let b = text_from(&chars, i + 1, chars.len());
            assert(a@ =~= s@.take(i as int));
            assert(b@ =~= s@.skip(i + 1));
            return Some((a, b));
        }
        i += 1;
    }
    None
}

} // verus!
