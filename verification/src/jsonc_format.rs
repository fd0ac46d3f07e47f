//! What formatting keeps: the tokens, and with them what a text says.
use vstd::prelude::*;

use crate::jsonc::{
    block_comment_at, closed_at, comment_end, ends_word, formatted, indented, is_blank, is_comment, is_punctuation, jsonc_value,
    kind_at, lemma_token_end, line_comment_at, line_end, may_open, plain_text, spaced, spaces, string_end, strings_close, text_tokens,
    token_at, token_written, tokens_from, tokens_written, unpadded, without_comments, word_end, FormatState, JsoncError, TokenKind,
    TokenModel,
};
use crate::text::{char_is_whitespace, lemma_trimmed, trimmed, trimmed_end};

verus! {

broadcast use vstd::seq_lib::group_seq_properties;

/// A string that runs into the end of the text.
pub open spec fn open_string(text: Seq<char>) -> bool {
    text.len() > 0 && text[0] == '"' && !closed_at(text, 1, false)
}

/// The tokens do not end in a string that runs into the end of the text.
pub open spec fn end_closed(tokens: Seq<TokenModel>) -> bool {
    tokens.len() > 0 ==> !open_string(tokens.last().text)
}

/// The tokens as formatting writes them: comments of one line lose the white space at their end.
pub open spec fn tidied(t: TokenModel) -> TokenModel {
    if t.kind == TokenKind::LineComment {
        TokenModel { text: trimmed_end(t.text), ..t }
    } else {
        t
    }
}

pub open spec fn all_tidied(tokens: Seq<TokenModel>) -> Seq<TokenModel> {
    Seq::new(tokens.len(), |i: int| tidied(tokens[i]))
}

/// A token that stands in a text at `i`.
spec fn drawn(t: TokenModel, s: Seq<char>, i: int) -> bool {
    &&& 0 <= i < s.len()
    &&& !char_is_whitespace(s[i])
    &&& 0 < t.text.len()
    &&& i + t.text.len() <= s.len()
    &&& token_at(s, i) == Ok::<(TokenKind, int), JsoncError>((t.kind, i + t.text.len()))
    &&& t.text == s.subrange(i, i + t.text.len())
    &&& s[i] == '"' ==> closed_at(s, i + 1, false)
}

spec fn genuine(t: TokenModel) -> bool {
    exists|s: Seq<char>, i: int| drawn(t, s, i)
}

proof fn lemma_open_reaches_the_end(s: Seq<char>, i: int, escaped: bool)
    requires
        0 <= i <= s.len(),
        !closed_at(s, i, escaped),
    ensures
        string_end(s, i, escaped) == s.len(),
    decreases s.len() - i,
{
    if i < s.len() {
        if escaped {
            lemma_open_reaches_the_end(s, i + 1, false);
        } else if s[i] == '\\' {
            lemma_open_reaches_the_end(s, i + 1, true);
        } else if s[i] != '"' {
            lemma_open_reaches_the_end(s, i + 1, false);
        }
    }
}

proof fn lemma_closed_in_rest(s: Seq<char>, from: int, i: int, escaped: bool)
    requires
        0 <= from <= i <= s.len(),
    ensures
        closed_at(s.subrange(from, s.len() as int), i - from, escaped) == closed_at(s, i, escaped),
    decreases s.len() - i,
{
    let rest = s.subrange(from, s.len() as int);
    if i < s.len() {
        assert(rest[i - from] == s[i]);
        lemma_closed_in_rest(s, from, i + 1, false);
        lemma_closed_in_rest(s, from, i + 1, true);
    }
}

proof fn lemma_genuine(s: Seq<char>, i: int, read: Seq<TokenModel>)
    requires
        0 <= i <= s.len(),
        tokens_from(s, i, read) is Ok,
        forall|k: int| 0 <= k < read.len() ==> genuine(#[trigger] read[k]),
    ensures
        ({
            let r = tokens_from(s, i, read)->Ok_0;
            forall|k: int|
                0 <= k < r.len() ==> genuine(#[trigger] r[k]) || (k == r.len() - 1 && open_string(r[k].text))
        }),
    decreases s.len() - i,
{
    if i < s.len() {
        if char_is_whitespace(s[i]) {
            lemma_genuine(s, i + 1, read);
        } else {
            lemma_token_end(s, i);
            let (kind, end) = token_at(s, i)->Ok_0;
            let t = TokenModel { kind, text: s.subrange(i, end) };
            let more = read.push(t);
            if s[i] == '"' && !closed_at(s, i + 1, false) {
                lemma_open_reaches_the_end(s, i + 1, false);
                lemma_closed_in_rest(s, i, i + 1, false);
                assert(end == s.len());
                assert(open_string(t.text));
                assert(tokens_from(s, end, more) == Ok::<Seq<TokenModel>, JsoncError>(more));
            } else {
                assert(drawn(t, s, i));
                lemma_genuine(s, end, more);
            }
        }
    }
}

/// White space, or a bracket, a comma or a colon.
spec fn separates(c: char) -> bool {
    char_is_whitespace(c) || is_punctuation(c)
}

proof fn lemma_string_moves(s: Seq<char>, i: int, s2: Seq<char>, d: int, escaped: bool)
    requires
        0 <= i,
        0 <= i + d,
        closed_at(s, i, escaped),
        string_end(s, i, escaped) + d <= s2.len(),
        forall|k: int| i <= k < string_end(s, i, escaped) ==> s2[k + d] == #[trigger] s[k],
    ensures
        string_end(s2, i + d, escaped) == string_end(s, i, escaped) + d,
        i < string_end(s, i, escaped),
        s[string_end(s, i, escaped) - 1] == '"',
    decreases s.len() - i,
{
    lemma_string_grows(s, i, escaped);
    assert(s2[i + d] == s[i]);
    if escaped {
        lemma_string_moves(s, i + 1, s2, d, false);
    } else if s[i] == '\\' {
        lemma_string_moves(s, i + 1, s2, d, true);
    } else if s[i] != '"' {
        lemma_string_moves(s, i + 1, s2, d, false);
    }
}

proof fn lemma_string_grows(s: Seq<char>, i: int, escaped: bool)
    requires
        0 <= i,
        closed_at(s, i, escaped),
    ensures
        i < string_end(s, i, escaped) <= s.len(),
    decreases s.len() - i,
{
    if escaped {
        lemma_string_grows(s, i + 1, false);
    } else if s[i] == '\\' {
        lemma_string_grows(s, i + 1, true);
    } else if s[i] != '"' {
        lemma_string_grows(s, i + 1, false);
    }
}

proof fn lemma_comment_moves(s: Seq<char>, i: int, s2: Seq<char>, d: int)
    requires
        0 <= i,
        0 <= i + d,
        comment_end(s, i) + 1 < s.len(),
        comment_end(s, i) + 2 + d <= s2.len(),
        forall|k: int| i <= k < comment_end(s, i) + 2 ==> s2[k + d] == #[trigger] s[k],
    ensures
        comment_end(s2, i + d) == comment_end(s, i) + d,
        i <= comment_end(s, i),
        s[comment_end(s, i) + 1] == '/',
    decreases s.len() - i,
{
    if i + 1 < s.len() && !(s[i] == '*' && s[i + 1] == '/') {
        lemma_comment_grows(s, i + 1);
        assert(s2[i + d] == s[i]);
        assert(s2[i + 1 + d] == s[i + 1]);
        lemma_comment_moves(s, i + 1, s2, d);
    } else {
        assert(i + 1 < s.len());
        assert(s2[i + d] == s[i]);
        assert(s2[i + 1 + d] == s[i + 1]);
    }
}

proof fn lemma_comment_grows(s: Seq<char>, i: int)
    requires
        0 <= i,
    ensures
        i <= comment_end(s, i),
    decreases s.len() - i,
{
    if i + 1 < s.len() && !(s[i] == '*' && s[i + 1] == '/') {
        lemma_comment_grows(s, i + 1);
    }
}

proof fn lemma_word_within(s: Seq<char>, i: int)
    requires
        0 <= i <= s.len(),
    ensures
        i <= word_end(s, i) <= s.len(),
        forall|k: int| i <= k < word_end(s, i) ==> !(#[trigger] ends_word(s, k)),
    decreases s.len() - i,
{
    if i < s.len() && !ends_word(s, i) {
        lemma_word_within(s, i + 1);
    }
}

proof fn lemma_word_reaches(s: Seq<char>, i: int, end: int)
    requires
        0 <= i <= end <= s.len(),
        forall|k: int| i <= k < end ==> !(#[trigger] ends_word(s, k)),
        end < s.len() ==> ends_word(s, end),
    ensures
        word_end(s, i) == end,
    decreases end - i,
{
    if i < end {
        assert(!ends_word(s, i));
        lemma_word_reaches(s, i + 1, end);
    }
}

proof fn lemma_line_reaches(s: Seq<char>, i: int, end: int)
    requires
        0 <= i <= end < s.len(),
        forall|k: int| i <= k < end ==> #[trigger] s[k] != '\n',
        s[end] == '\n',
    ensures
        line_end(s, i) == end,
    decreases end - i,
{
    if i < end {
        lemma_line_reaches(s, i + 1, end);
    }
}

proof fn lemma_line_within(s: Seq<char>, i: int)
    requires
        0 <= i <= s.len(),
    ensures
        i <= line_end(s, i) <= s.len(),
        forall|k: int| i <= k < line_end(s, i) ==> #[trigger] s[k] != '\n',
    decreases s.len() - i,
{
    if i < s.len() && s[i] != '\n' {
        lemma_line_within(s, i + 1);
    }
}

/// A token that is no comment of one line is read again where its text stands in another text.
proof fn lemma_token_moves(t: TokenModel, s: Seq<char>, i: int, s2: Seq<char>, j: int)
    requires
        drawn(t, s, i),
        t.kind != TokenKind::LineComment,
        0 <= j,
        j + t.text.len() <= s2.len(),
        forall|k: int| 0 <= k < t.text.len() ==> s2[j + k] == #[trigger] t.text[k],
        t.kind == TokenKind::Value && j + t.text.len() < s2.len() ==> separates(s2[j + t.text.len()]),
    ensures
        token_at(s2, j) == Ok::<(TokenKind, int), JsoncError>((t.kind, j + t.text.len())),
        !char_is_whitespace(s2[j]),
{
    let n = t.text.len() as int;
    let d = j - i;
    assert forall|k: int| i <= k < i + n implies s2[k + d] == #[trigger] s[k] by {
        assert(s2[j + (k - i)] == t.text[k - i]);
    }
    assert(s2[i + d] == s[i]);
    let c = s[i];
    if is_punctuation(c) {
    } else if c == '"' {
        lemma_string_moves(s, i + 1, s2, d, false);
        assert(s2[i + n - 1 + d] == s[i + n - 1]);
    } else if line_comment_at(s, i) {
    } else if block_comment_at(s, i) {
        lemma_comment_grows(s, i + 2);
        assert(s2[i + 1 + d] == s[i + 1]);
        lemma_comment_moves(s, i + 2, s2, d);
    } else {
        lemma_word_within(s, i + 1);
        assert forall|k: int| j + 1 <= k < j + n implies !(#[trigger] ends_word(s2, k)) by {
            assert(!ends_word(s, k - d));
            assert(s2[(k - d) + d] == s[k - d]);
            if k + 1 < j + n {
                assert(s2[(k + 1 - d) + d] == s[k + 1 - d]);
            }
        }
        if j + n < s2.len() {
            assert(ends_word(s2, j + n));
        }
        lemma_word_reaches(s2, j + 1, j + n);
        if n > 1 {
            assert(s2[i + 1 + d] == s[i + 1]);
        }
    }
}

proof fn lemma_trimmed_end(s: Seq<char>)
    ensures
        trimmed_end(s).len() <= s.len(),
        forall|k: int| 0 <= k < trimmed_end(s).len() ==> #[trigger] trimmed_end(s)[k] == s[k],
        forall|k: int| 0 <= k < s.len() && !char_is_whitespace(#[trigger] s[k]) ==> k < trimmed_end(s).len(),
        trimmed_end(s).len() > 0 ==> !char_is_whitespace(trimmed_end(s).last()),
    decreases s.len(),
{
    if s.len() > 0 && char_is_whitespace(s.last()) {
        lemma_trimmed_end(s.drop_last());
        assert forall|k: int| 0 <= k < s.len() && !char_is_whitespace(#[trigger] s[k]) implies k < trimmed_end(s).len() by {
            assert(s.drop_last()[k] == s[k]);
        }
    }
}

proof fn lemma_tidied_twice(s: Seq<char>)
    ensures
        trimmed_end(trimmed_end(s)) == trimmed_end(s),
{
    lemma_trimmed_end(s);
}

/// A comment of one line is read again where its text stands before a line end.
proof fn lemma_line_comment_moves(t: TokenModel, s: Seq<char>, i: int, s2: Seq<char>, j: int)
    requires
        drawn(t, s, i),
        t.kind == TokenKind::LineComment,
        0 <= j,
        j + tidied(t).text.len() < s2.len(),
        forall|k: int| 0 <= k < tidied(t).text.len() ==> s2[j + k] == #[trigger] tidied(t).text[k],
        s2[j + tidied(t).text.len()] == '\n',
    ensures
        token_at(s2, j) == Ok::<(TokenKind, int), JsoncError>((t.kind, j + tidied(t).text.len())),
        !char_is_whitespace(s2[j]),
        tidied(t).text.len() >= 2,
{
    let text = tidied(t).text;
    lemma_trimmed_end(t.text);
    assert(line_comment_at(s, i));
    lemma_line_within(s, i + 2);
    assert(t.text[0] == s[i] && t.text[1] == s[i + 1]);
    assert(!char_is_whitespace(t.text[1]));
    assert(text[0] == '/' && text[1] == '/');
    assert(s2[j + 0] == text[0] && s2[j + 1] == text[1]);
    assert forall|k: int| j + 2 <= k < j + text.len() implies #[trigger] s2[k] != '\n' by {
        assert(s2[j + (k - j)] == text[k - j]);
        assert(text[k - j] == t.text[k - j]);
        assert(t.text[k - j] == s[i + (k - j)]);
    }
    lemma_line_reaches(s2, j + 2, j + text.len());
}

proof fn lemma_skip(s: Seq<char>, i: int, j: int, read: Seq<TokenModel>)
    requires
        0 <= i <= j <= s.len(),
        forall|k: int| i <= k < j ==> char_is_whitespace(#[trigger] s[k]),
    ensures
        tokens_from(s, i, read) == tokens_from(s, j, read),
    decreases j - i,
{
    if i < j {
        lemma_skip(s, i + 1, j, read);
    }
}

/// The last character of a token.
proof fn lemma_token_last(t: TokenModel, s: Seq<char>, i: int)
    requires
        drawn(t, s, i),
        t.kind != TokenKind::LineComment,
    ensures
        !char_is_whitespace(t.text.last()),
        !char_is_whitespace(t.text[0]),
        t.kind == TokenKind::Open || t.kind == TokenKind::Close || t.kind == TokenKind::Comma || t.kind == TokenKind::Colon
            ==> t.text.len() == 1 && is_punctuation(t.text[0]),
        t.kind == TokenKind::Comma ==> t.text == seq![','],
        t.kind == TokenKind::Colon ==> t.text == seq![':'],
        t.kind == TokenKind::BlockComment ==> trimmed(t.text) == t.text,
{
    let n = t.text.len() as int;
    assert(t.text[0] == s[i]);
    assert(t.text[n - 1] == s[i + n - 1]);
    let c = s[i];
    if is_punctuation(c) {
        assert(n == 1);
        assert(t.text =~= seq![c]);
    } else if c == '"' {
        lemma_string_moves(s, i + 1, s, 0, false);
    } else if line_comment_at(s, i) {
    } else if block_comment_at(s, i) {
        lemma_comment_grows(s, i + 2);
        lemma_comment_moves(s, i + 2, s, 0);
        assert(t.text.subrange(0, n) =~= t.text);
        lemma_trimmed(t.text, 0, n);
    } else {
        lemma_word_within(s, i + 1);
        if n > 1 {
            assert(!ends_word(s, i + n - 1));
        }
    }
}

/// Only spaces and line ends.
spec fn blanks(s: Seq<char>) -> bool {
    forall|k: int| 0 <= k < s.len() ==> (#[trigger] s[k] == ' ' || s[k] == '\n')
}

/// A token is written with blanks before and after its text. A value, and a comment after it, never touch
/// the value before them.
proof fn lemma_token_spread(f: FormatState, previous: Option<TokenKind>, t: TokenModel, next: Option<TokenKind>) -> (r: (
    Seq<char>,
    Seq<char>,
))
    requires
        genuine(t),
        previous == Some(TokenKind::Value) ==> !f.line_start && f.out.len() > 0 && !char_is_whitespace(f.out.last()),
    ensures
        token_written(f, previous, t, next).out == f.out + r.0 + tidied(t).text + r.1,
        blanks(r.0),
        blanks(r.1),
        previous == Some(TokenKind::Value) ==> r.0.len() > 0 || is_punctuation(tidied(t).text[0]),
        t.kind == TokenKind::Value ==> r.1.len() == 0 && !token_written(f, previous, t, next).line_start,
        t.kind == TokenKind::LineComment ==> r.1.len() > 0 && r.1[0] == '\n',
        tidied(t).text.len() > 0,
        !char_is_whitespace(tidied(t).text.last()),
{
    let (s, i) = choose|s: Seq<char>, i: int| drawn(t, s, i);
    let text = tidied(t).text;
    let none = Seq::<char>::empty();
    let line = seq!['\n'];
    let pad = if f.line_start {
        spaces(2 * f.depth)
    } else {
        none
    };
    let end = token_written(f, previous, t, next);
    assert(indented(f).out =~= f.out + pad);
    if t.kind == TokenKind::LineComment {
        lemma_trimmed_end(t.text);
        assert(t.text[0] == s[i]);
        let gap = if spaced(indented(f)).out == indented(f).out {
            none
        } else {
            seq![' ']
        };
        assert(end.out =~= f.out + (pad + gap) + text + line);
        (pad + gap, line)
    } else {
        lemma_token_last(t, s, i);
        match t.kind {
            TokenKind::Open => {
                let trail = if next != Some(TokenKind::Close) {
                    line
                } else {
                    none
                };
                assert(end.out =~= f.out + pad + text + trail);
                (pad, trail)
            },
            TokenKind::Close => {
                let up = if f.depth > 0 {
                    (f.depth - 1) as nat
                } else {
                    0
                };
                let lead = if f.line_start {
                    spaces(2 * up)
                } else {
                    line + spaces(2 * up)
                };
                assert(end.out =~= f.out + lead + text + none);
                (lead, none)
            },
            TokenKind::Comma => {
                assert(end.out =~= f.out + none + text + line);
                (none, line)
            },
            TokenKind::Colon => {
                assert(end.out =~= f.out + none + text + seq![' ']);
                (none, seq![' '])
            },
            TokenKind::Value => {
                let gap = if previous == Some(TokenKind::Value) || previous == Some(TokenKind::BlockComment) {
                    seq![' ']
                } else {
                    none
                };
                assert(end.out =~= f.out + (pad + gap) + text + none);
                (pad + gap, none)
            },
            _ => {
                let gap = if spaced(indented(f)).out == indented(f).out {
                    none
                } else {
                    seq![' ']
                };
                let trail = if end.line_start {
                    line
                } else {
                    none
                };
                assert(end.out =~= f.out + (pad + gap) + text + trail);
                (pad + gap, trail)
            },
        }
    }
}

proof fn lemma_unpadded_rest(s: Seq<char>)
    ensures
        unpadded(s).len() <= s.len(),
        forall|k: int| 0 <= k < unpadded(s).len() ==> #[trigger] unpadded(s)[k] == s[k],
        forall|k: int| unpadded(s).len() <= k < s.len() ==> is_blank(#[trigger] s[k]),
    decreases s.len(),
{
    if s.len() > 0 && is_blank(s.last()) {
        lemma_unpadded_rest(s.drop_last());
        assert forall|k: int| unpadded(s).len() <= k < s.len() implies is_blank(#[trigger] s[k]) by {
            if k < s.len() - 1 {
                assert(s.drop_last()[k] == s[k]);
            }
        }
    }
}

proof fn lemma_unpadded_at(a: Seq<char>, b: Seq<char>)
    requires
        blanks(b),
        a.len() > 0,
        !char_is_whitespace(a.last()),
    ensures
        unpadded(a + b) == a,
    decreases b.len(),
{
    if b.len() > 0 {
        assert((a + b).drop_last() =~= a + b.drop_last());
        assert((a + b).last() == b[b.len() - 1]);
        assert forall|k: int| 0 <= k < b.drop_last().len() implies (#[trigger] b.drop_last()[k] == ' ' || b.drop_last()[k]
            == '\n') by {
            assert(b[k] == b.drop_last()[k]);
        }
        lemma_unpadded_at(a, b.drop_last());
    } else {
        assert(a + b =~= a);
    }
}

/// What is known after a value is written.
proof fn lemma_after_value(tokens: Seq<TokenModel>, n: nat)
    requires
        0 < n <= tokens.len(),
        forall|k: int| 0 <= k < tokens.len() ==> genuine(#[trigger] tokens[k]),
        tokens[n - 1].kind == TokenKind::Value,
    ensures
        ({
            let f = tokens_written(tokens, n);
            !f.line_start && f.out.len() > 0 && !char_is_whitespace(f.out.last())
        }),
    decreases n,
{
    let before = tokens_written(tokens, (n - 1) as nat);
    if n > 1 && tokens[n - 2].kind == TokenKind::Value {
        lemma_after_value(tokens, (n - 1) as nat);
    }
    let (lead, trail) = lemma_token_spread(before, kind_at(tokens, n - 2), tokens[n - 1], kind_at(tokens, n as int));
    let out = tokens_written(tokens, n).out;
    let text = tidied(tokens[n - 1]).text;
    assert(out =~= before.out + lead + text);
    assert(out.last() == text.last());
}

/// What is known after a comment of one line is written.
proof fn lemma_after_line_comment(tokens: Seq<TokenModel>, n: nat)
    requires
        0 < n <= tokens.len(),
        forall|k: int| 0 <= k < tokens.len() ==> genuine(#[trigger] tokens[k]),
        tokens[n - 1].kind == TokenKind::LineComment,
    ensures
        ({
            let out = tokens_written(tokens, n).out;
            unpadded(out).len() < out.len() && out[unpadded(out).len() as int] == '\n'
        }),
{
    let before = tokens_written(tokens, (n - 1) as nat);
    if n > 1 && tokens[n - 2].kind == TokenKind::Value {
        lemma_after_value(tokens, (n - 1) as nat);
    }
    let (lead, trail) = lemma_token_spread(before, kind_at(tokens, n - 2), tokens[n - 1], kind_at(tokens, n as int));
    let text = tidied(tokens[n - 1]).text;
    let whole = before.out + lead + text;
    assert(whole.last() == text.last());
    assert(tokens_written(tokens, n).out =~= whole + trail);
    lemma_unpadded_at(whole, trail);
    assert((whole + trail)[whole.len() as int] == trail[0]);
}

/// One token is read where the text of a formatted one holds it.
proof fn lemma_token_read(t: TokenModel, s: Seq<char>, from: int, start: int, read: Seq<TokenModel>)
    requires
        genuine(t),
        0 <= from <= start,
        start + tidied(t).text.len() <= s.len(),
        forall|k: int| from <= k < start ==> char_is_whitespace(#[trigger] s[k]),
        forall|k: int| 0 <= k < tidied(t).text.len() ==> s[start + k] == #[trigger] tidied(t).text[k],
        t.kind == TokenKind::Value && start + tidied(t).text.len() < s.len() ==> separates(
            s[start + tidied(t).text.len()],
        ),
        t.kind == TokenKind::LineComment ==> start + tidied(t).text.len() < s.len() && s[start + tidied(t).text.len()]
            == '\n',
    ensures
        tokens_from(s, from, read) == tokens_from(s, start + tidied(t).text.len(), read.push(tidied(t))),
{
    let text = tidied(t).text;
    let (s1, i1) = choose|s1: Seq<char>, i1: int| drawn(t, s1, i1);
    if t.kind == TokenKind::LineComment {
        lemma_line_comment_moves(t, s1, i1, s, start);
    } else {
        lemma_token_moves(t, s1, i1, s, start);
    }
    lemma_skip(s, from, start, read);
    assert(s.subrange(start, start + text.len()) =~= text);
}

/// The first `n` tokens are read again from any text that starts as the formatted one does.
#[verifier::rlimit(60)]
proof fn lemma_read_again(s: Seq<char>, tokens: Seq<TokenModel>, n: nat)
    requires
        n <= tokens.len(),
        forall|k: int| 0 <= k < tokens.len() ==> genuine(#[trigger] tokens[k]),
        ({
            let u = unpadded(tokens_written(tokens, n).out);
            &&& u.len() <= s.len()
            &&& forall|k: int| 0 <= k < u.len() ==> s[k] == #[trigger] u[k]
            &&& n > 0 && tokens[n - 1].kind == TokenKind::Value && u.len() < s.len() ==> separates(s[u.len() as int])
            &&& n > 0 && tokens[n - 1].kind == TokenKind::LineComment ==> u.len() < s.len() && s[u.len() as int] == '\n'
        }),
    ensures
        tokens_from(s, 0, Seq::empty()) == tokens_from(
            s,
            unpadded(tokens_written(tokens, n).out).len() as int,
            all_tidied(tokens).take(n as int),
        ),
    decreases n,
{
    if n == 0 {
        assert(all_tidied(tokens).take(0) =~= Seq::empty());
    } else {
        let m = (n - 1) as nat;
        let before = tokens_written(tokens, m);
        let t = tokens[n - 1];
        let text = tidied(t).text;
        if m > 0 && tokens[m - 1].kind == TokenKind::Value {
            lemma_after_value(tokens, m);
        }
        let (lead, trail) = lemma_token_spread(before, kind_at(tokens, n - 2), t, kind_at(tokens, n as int));
        let whole = before.out + lead + text;
        assert(whole.last() == text.last());
        assert(tokens_written(tokens, n).out =~= whole + trail);
        lemma_unpadded_at(whole, trail);
        let u = unpadded(before.out);
        lemma_unpadded_rest(before.out);
        let start = (before.out.len() + lead.len()) as int;
        assert forall|k: int| 0 <= k < u.len() implies s[k] == #[trigger] u[k] by {
            assert(s[k] == whole[k]);
        }
        assert forall|k: int| u.len() <= k < start implies char_is_whitespace(#[trigger] s[k]) by {
            assert(s[k] == whole[k]);
            if k < before.out.len() {
                assert(is_blank(before.out[k]));
            } else {
                assert(whole[k] == lead[k - before.out.len()]);
            }
        }
        if m > 0 {
            let last = tokens[m - 1];
            if last.kind == TokenKind::Value {
                if u.len() == start {
                    assert(s[start] == whole[start]);
                    assert(whole[start] == text[0]);
                }
            } else if last.kind == TokenKind::LineComment {
                lemma_after_line_comment(tokens, m);
                assert(s[u.len() as int] == whole[u.len() as int]);
            }
        }
        lemma_read_again(s, tokens, m);
        let read = all_tidied(tokens).take(m as int);
        assert forall|k: int| 0 <= k < text.len() implies s[start + k] == #[trigger] text[k] by {
            assert(s[start + k] == whole[start + k]);
        }
        lemma_token_read(t, s, u.len() as int, start, read);
        assert(all_tidied(tokens).take(n as int) =~= read.push(tidied(t)));
    }
}

/// Formatting keeps the tokens: the formatted text has the same, in the same order, comments among them.
/// Only the white space at the end of a comment of one line is dropped.
pub proof fn law_formatting_keeps_the_tokens(s: Seq<char>)
    requires
        text_tokens(s) is Ok,
        end_closed(text_tokens(s)->Ok_0),
    ensures
        text_tokens(formatted(text_tokens(s)->Ok_0)) == Ok::<Seq<TokenModel>, JsoncError>(
            all_tidied(text_tokens(s)->Ok_0),
        ),
{
    let tokens = text_tokens(s)->Ok_0;
    lemma_genuine(s, 0, Seq::empty());
    let out = tokens_written(tokens, tokens.len()).out;
    let u = unpadded(out);
    let new = formatted(tokens);
    assert(new =~= u.push('\n'));
    lemma_read_again(new, tokens, tokens.len());
    lemma_skip(new, u.len() as int, new.len() as int, all_tidied(tokens));
    assert(all_tidied(tokens).take(tokens.len() as int) =~= all_tidied(tokens));
}

proof fn lemma_tidied_written(tokens: Seq<TokenModel>, n: nat)
    requires
        n <= tokens.len(),
    ensures
        tokens_written(all_tidied(tokens), n) == tokens_written(tokens, n),
    decreases n,
{
    if n > 0 {
        lemma_tidied_written(tokens, (n - 1) as nat);
        lemma_tidied_twice(tokens[n - 1].text);
    }
}

/// Formatting a formatted text changes nothing.
pub proof fn law_formatting_settles(s: Seq<char>)
    requires
        text_tokens(s) is Ok,
        end_closed(text_tokens(s)->Ok_0),
    ensures
        ({
            let new = formatted(text_tokens(s)->Ok_0);
            text_tokens(new) is Ok && formatted(text_tokens(new)->Ok_0) == new
        }),
{
    law_formatting_keeps_the_tokens(s);
    let tokens = text_tokens(s)->Ok_0;
    lemma_tidied_written(tokens, tokens.len());
}

proof fn lemma_tidied_without_comments(tokens: Seq<TokenModel>)
    ensures
        without_comments(all_tidied(tokens)) == without_comments(tokens),
    decreases tokens.len(),
{
    reveal(Seq::filter);
    if tokens.len() > 0 {
        lemma_tidied_without_comments(tokens.drop_last());
        assert(all_tidied(tokens).drop_last() =~= all_tidied(tokens.drop_last()));
        assert(all_tidied(tokens).last() == tidied(tokens.last()));
    } else {
        assert(all_tidied(tokens) =~= tokens);
    }
}

/// Formatting keeps what a text says.
pub proof fn law_formatting_keeps_the_value(s: Seq<char>)
    requires
        text_tokens(s) is Ok,
        end_closed(text_tokens(s)->Ok_0),
    ensures
        jsonc_value(formatted(text_tokens(s)->Ok_0)) == jsonc_value(s),
{
    law_formatting_keeps_the_tokens(s);
    lemma_tidied_without_comments(text_tokens(s)->Ok_0);
}

proof fn lemma_genuine_without_comments(tokens: Seq<TokenModel>)
    requires
        forall|k: int| 0 <= k < tokens.len() ==> genuine(#[trigger] tokens[k]),
    ensures
        forall|k: int| 0 <= k < without_comments(tokens).len() ==> genuine(#[trigger] without_comments(tokens)[k]),
        forall|k: int| 0 <= k < without_comments(tokens).len() ==> !is_comment((#[trigger] without_comments(tokens)[k]).kind),
    decreases tokens.len(),
{
    reveal(Seq::filter);
    if tokens.len() > 0 {
        let before = tokens.drop_last();
        assert forall|k: int| 0 <= k < before.len() implies genuine(#[trigger] before[k]) by {
            assert(before[k] == tokens[k]);
        }
        lemma_genuine_without_comments(before);
        assert(genuine(tokens[tokens.len() - 1]));
    }
}

/// Where a text goes on without a quotation mark, nothing of its strings is decided.
proof fn lemma_no_mark(s: Seq<char>, i: int, j: int)
    requires
        0 <= i <= j <= s.len(),
        strings_close(s, i),
        forall|k: int| i <= k < j ==> #[trigger] s[k] != '"',
    ensures
        strings_close(s, j),
    decreases j - i,
{
    if i < j {
        assert(s[i] != '"');
        lemma_no_mark(s, i + 1, j);
    }
}

/// A word holds no quotation mark where strings open as they should.
proof fn lemma_word_unmarked(s: Seq<char>, from: int, i: int, end: int)
    requires
        0 <= from < i <= end <= s.len(),
        strings_close(s, i),
        forall|k: int| from <= k < end ==> !char_is_whitespace(#[trigger] s[k]) && !is_punctuation(s[k]),
    ensures
        strings_close(s, end),
    decreases end - i,
{
    if i < end {
        if s[i] == '"' {
            assert(may_open(s, i));
            assert(!char_is_whitespace(s[i - 1]) && !is_punctuation(s[i - 1]));
        } else {
            lemma_word_unmarked(s, from, i + 1, end);
        }
    }
}

/// The strings of a text close after a token where they close from its start on.
proof fn lemma_close_after(t: TokenModel, s: Seq<char>, p: int)
    requires
        genuine(t),
        !is_comment(t.kind),
        0 <= p,
        p + t.text.len() <= s.len(),
        s.subrange(p, p + t.text.len()) == t.text,
        strings_close(s, p),
    ensures
        strings_close(s, p + t.text.len()),
{
    let (o, i) = choose|o: Seq<char>, i: int| drawn(t, o, i);
    let end = i + t.text.len();
    assert forall|k: int| i <= k < end implies s[k + (p - i)] == #[trigger] o[k] by {
        assert(t.text[k - i] == o[k]);
        assert(t.text[k - i] == s[p + (k - i)]);
    }
    assert(s[i + (p - i)] == o[i]);
    if o[i] == '"' {
        lemma_string_moves(o, i + 1, s, p - i, false);
    } else if is_punctuation(o[i]) {
        lemma_no_mark(s, p, p + 1);
    } else {
        lemma_word_within(o, i + 1);
        assert forall|k: int| p <= k < p + t.text.len() implies !char_is_whitespace(#[trigger] s[k]) && !is_punctuation(s[k]) by {
            let q = k - (p - i);
            assert(s[q + (p - i)] == o[q]);
            if q > i {
                assert(!ends_word(o, q));
            }
        }
        lemma_no_mark(s, p, p + 1);
        lemma_word_unmarked(s, p, p + 1, p + t.text.len());
    }
}

proof fn lemma_close_after_tokens(tokens: Seq<TokenModel>, s: Seq<char>, n: nat)
    requires
        n <= tokens.len(),
        plain_text(tokens, n).is_prefix_of(s),
        strings_close(s, 0),
        forall|k: int| 0 <= k < n ==> genuine(#[trigger] tokens[k]) && !is_comment(tokens[k].kind),
    ensures
        strings_close(s, plain_text(tokens, n).len() as int),
    decreases n,
{
    if n > 0 {
        let before = plain_text(tokens, (n - 1) as nat);
        let now = plain_text(tokens, n);
        assert(before.is_prefix_of(now));
        assert(before.is_prefix_of(s)) by {
            assert(forall|k: int| 0 <= k < before.len() ==> #[trigger] before[k] == now[k]);
            assert(forall|k: int| 0 <= k < now.len() ==> #[trigger] now[k] == s[k]);
        }
        lemma_close_after_tokens(tokens, s, (n - 1) as nat);
        let t = tokens[n - 1];
        assert(genuine(t));
        if now != before {
            let p = before.len() as int;
            assert forall|k: int| 0 <= k < t.text.len() implies s[p + k] == #[trigger] t.text[k] by {
                assert(now[p + k] == t.text[k]);
                assert(now[p + k] == s[p + k]);
            }
            assert(s.subrange(p, p + t.text.len()) =~= t.text);
            lemma_close_after(t, s, p);
        }
    }
}

/// A text whose strings close, once its comments are gone, does not end in an open string.
pub proof fn lemma_read_text_is_closed(s: Seq<char>)
    requires
        text_tokens(s) is Ok,
        strings_close(plain_text(without_comments(text_tokens(s)->Ok_0), without_comments(text_tokens(s)->Ok_0).len()), 0),
    ensures
        end_closed(text_tokens(s)->Ok_0),
{
    let tokens = text_tokens(s)->Ok_0;
    lemma_genuine(s, 0, Seq::empty());
    if tokens.len() > 0 && open_string(tokens.last().text) {
        let t = tokens.last();
        let rest = tokens.drop_last();
        assert forall|k: int| 0 <= k < rest.len() implies genuine(#[trigger] rest[k]) by {
            assert(rest[k] == tokens[k]);
        }
        lemma_genuine_without_comments(rest);
        lemma_open_is_a_value(s, 0, Seq::empty());
        assert(without_comments(tokens) == without_comments(rest).push(t)) by {
            reveal(Seq::filter);
        }
        let plain = without_comments(tokens);
        let n = plain.len();
        let whole = plain_text(plain, n);
        let p = plain_text(plain, (n - 1) as nat).len() as int;
        assert forall|k: int| 0 <= k < n - 1 implies genuine(#[trigger] plain[k]) && !is_comment(plain[k].kind) by {
            assert(plain[k] == without_comments(rest)[k]);
        }
        assert(whole == plain_text(plain, (n - 1) as nat) + t.text);
        lemma_close_after_tokens(plain, whole, (n - 1) as nat);
        assert(whole.subrange(p, whole.len() as int) =~= t.text);
        lemma_closed_in_rest(whole, p, p + 1, false);
        assert(whole[p] == t.text[0]);
        assert(closed_at(whole, p + 1, false));
    }
}

proof fn lemma_open_is_a_value(s: Seq<char>, i: int, read: Seq<TokenModel>)
    requires
        0 <= i <= s.len(),
        tokens_from(s, i, read) is Ok,
        forall|k: int| 0 <= k < read.len() ==> ((#[trigger] read[k]).text.len() > 0 && read[k].text[0] == '"' ==> read[k].kind
            == TokenKind::Value),
    ensures
        ({
            let r = tokens_from(s, i, read)->Ok_0;
            forall|k: int|
                0 <= k < r.len() ==> ((#[trigger] r[k]).text.len() > 0 && r[k].text[0] == '"' ==> r[k].kind == TokenKind::Value)
        }),
    decreases s.len() - i,
{
    if i < s.len() {
        if char_is_whitespace(s[i]) {
            lemma_open_is_a_value(s, i + 1, read);
        } else {
            lemma_token_end(s, i);
            let (kind, end) = token_at(s, i)->Ok_0;
            let t = TokenModel { kind, text: s.subrange(i, end) };
            assert(t.text[0] == s[i]);
            lemma_open_is_a_value(s, end, read.push(t));
        }
    }
}

} // verus!
