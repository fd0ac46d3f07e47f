//! JSON with comments and trailing commas: tokens, a formatter, and plain JSON from it.
use vstd::prelude::*;
use vstd::string::*;

use serde_json::Value;

use crate::json::{opt_json, Json, JsonModel, Member, Number};
use crate::jsonc_format::{end_closed, law_formatting_keeps_the_value, law_formatting_settles, lemma_read_text_is_closed};
use crate::text::{
    char_is_whitespace, chars_of, is_whitespace, push_chars, text_from, trim, trim_end, trimmed, trimmed_end,
};

verus! {

broadcast use vstd::seq_lib::group_seq_properties;

#[derive(PartialEq, Eq, Structural, Clone, Copy, Debug)]
pub enum TokenKind {
    Open,
    Close,
    Comma,
    Colon,
    Value,
    LineComment,
    BlockComment,
}

/// A token with its text.
pub struct Token {
    pub kind: TokenKind,
    pub text: String,
}

#[verifier::ext_equal]
pub struct TokenModel {
    pub kind: TokenKind,
    pub text: Seq<char>,
}

impl View for Token {
    type V = TokenModel;

    open spec fn view(&self) -> TokenModel {
        TokenModel { kind: self.kind, text: self.text@ }
    }
}

pub open spec fn tokens_of(v: Seq<Token>) -> Seq<TokenModel> {
    Seq::new(v.len(), |i: int| v[i]@)
}

/// Why a text has no tokens.
#[derive(PartialEq, Eq, Structural, Clone, Copy, Debug)]
pub enum JsoncError {
    UnterminatedString,
    UnterminatedComment,
}

/// A bracket, a comma or a colon.
pub open spec fn is_punctuation(c: char) -> bool {
    c == '{' || c == '}' || c == '[' || c == ']' || c == ',' || c == ':'
}

/// The character at a place, where there is one.
pub open spec fn char_at(s: Seq<char>, i: int) -> Option<char> {
    if 0 <= i < s.len() {
        Some(s[i])
    } else {
        None
    }
}

/// A comment of one line, or of several, starts here.
pub open spec fn line_comment_at(s: Seq<char>, i: int) -> bool {
    char_at(s, i) == Some('/') && char_at(s, i + 1) == Some('/')
}

pub open spec fn block_comment_at(s: Seq<char>, i: int) -> bool {
    char_at(s, i) == Some('/') && char_at(s, i + 1) == Some('*')
}

/// The place after the quotation mark that ends a string, read from `i` on; the end where there is none.
pub open spec fn string_end(s: Seq<char>, i: int, escaped: bool) -> int
    decreases s.len() - i,
{
    if i >= s.len() || i < 0 {
        i
    } else if escaped {
        string_end(s, i + 1, false)
    } else if s[i] == '\\' {
        string_end(s, i + 1, true)
    } else if s[i] == '"' {
        i + 1
    } else {
        string_end(s, i + 1, false)
    }
}

/// The end of the line, from `i` on.
pub open spec fn line_end(s: Seq<char>, i: int) -> int
    decreases s.len() - i,
{
    if i >= s.len() || i < 0 || s[i] == '\n' {
        i
    } else {
        line_end(s, i + 1)
    }
}

/// The place of the next `*/`, from `i` on; the last character or the end where there is none.
pub open spec fn comment_end(s: Seq<char>, i: int) -> int
    decreases s.len() - i,
{
    if i + 1 >= s.len() || i < 0 || (s[i] == '*' && s[i + 1] == '/') {
        i
    } else {
        comment_end(s, i + 1)
    }
}

/// A word ends here.
pub open spec fn ends_word(s: Seq<char>, i: int) -> bool {
    char_is_whitespace(s[i]) || is_punctuation(s[i]) || line_comment_at(s, i) || block_comment_at(s, i)
}

/// The end of a word, from `i` on.
pub open spec fn word_end(s: Seq<char>, i: int) -> int
    decreases s.len() - i,
{
    if i >= s.len() || i < 0 || ends_word(s, i) {
        i
    } else {
        word_end(s, i + 1)
    }
}

/// The kind and the end of the token that starts at `i`.
pub open spec fn token_at(s: Seq<char>, i: int) -> Result<(TokenKind, int), JsoncError> {
    let c = s[i];
    if c == '{' || c == '[' {
        Ok((TokenKind::Open, i + 1))
    } else if c == '}' || c == ']' {
        Ok((TokenKind::Close, i + 1))
    } else if c == ',' {
        Ok((TokenKind::Comma, i + 1))
    } else if c == ':' {
        Ok((TokenKind::Colon, i + 1))
    } else if c == '"' {
        let end = string_end(s, i + 1, false);
        if char_at(s, end - 1) != Some('"') {
            Err(JsoncError::UnterminatedString)
        } else {
            Ok((TokenKind::Value, end))
        }
    } else if line_comment_at(s, i) {
        Ok((TokenKind::LineComment, line_end(s, i + 2)))
    } else if block_comment_at(s, i) {
        let end = comment_end(s, i + 2);
        if end + 1 >= s.len() {
            Err(JsoncError::UnterminatedComment)
        } else {
            Ok((TokenKind::BlockComment, end + 2))
        }
    } else {
        Ok((TokenKind::Value, word_end(s, i + 1)))
    }
}

proof fn lemma_ends(s: Seq<char>, i: int, escaped: bool)
    requires
        0 <= i <= s.len(),
    ensures
        i <= string_end(s, i, escaped) <= s.len(),
        i <= line_end(s, i) <= s.len(),
        i <= comment_end(s, i) <= s.len(),
        i <= word_end(s, i) <= s.len(),
    decreases s.len() - i,
{
    if i < s.len() {
        lemma_ends(s, i + 1, false);
        lemma_ends(s, i + 1, true);
    }
}

pub proof fn lemma_token_end(s: Seq<char>, i: int)
    requires
        0 <= i < s.len(),
        token_at(s, i) is Ok,
    ensures
        i < token_at(s, i)->Ok_0.1 <= s.len(),
{
    lemma_ends(s, i + 1, false);
    if i + 2 <= s.len() {
        lemma_ends(s, i + 2, false);
    }
}

/// The tokens from `i` on, after those that were read before.
pub open spec fn tokens_from(s: Seq<char>, i: int, read: Seq<TokenModel>) -> Result<Seq<TokenModel>, JsoncError>
    decreases s.len() - i,
{
    if i >= s.len() || i < 0 {
        Ok(read)
    } else if char_is_whitespace(s[i]) {
        tokens_from(s, i + 1, read)
    } else {
        match token_at(s, i) {
            Err(e) => Err(e),
            Ok((kind, end)) => if end <= i || end > s.len() {
                Ok(read)
            } else {
                tokens_from(s, end, read.push(TokenModel { kind, text: s.subrange(i, end) }))
            },
        }
    }
}

/// The tokens of a text: white space stands between them and is in none of them but strings and comments.
pub open spec fn text_tokens(s: Seq<char>) -> Result<Seq<TokenModel>, JsoncError> {
    tokens_from(s, 0, Seq::empty())
}

pub open spec fn tokens_result(r: Result<Vec<Token>, JsoncError>) -> Result<Seq<TokenModel>, JsoncError> {
    match r {
        Ok(v) => Ok(tokens_of(v@)),
        Err(e) => Err(e),
    }
}

fn read_string(chars: &Vec<char>, from: usize) -> (r: usize)
    requires
        from <= chars.len(),
    ensures
        r == string_end(chars@, from as int, false),
        from <= r <= chars.len(),
{
    let mut i: usize = from;
    let mut escaped = false;
    while i < chars.len()
        invariant
            from <= i <= chars.len(),
            string_end(chars@, i as int, escaped) == string_end(chars@, from as int, false),
        decreases chars.len() - i,
    {
        let c = chars[i];
        i += 1;
        if escaped {
            escaped = false;
        } else if c == '\\' {
            escaped = true;
        } else if c == '"' {
            return i;
        }
    }
    i
}

fn read_line(chars: &Vec<char>, from: usize) -> (r: usize)
    requires
        from <= chars.len(),
    ensures
        r == line_end(chars@, from as int),
        from <= r <= chars.len(),
{
    let mut i: usize = from;
    while i < chars.len() && chars[i] != '\n'
        invariant
            from <= i <= chars.len(),
            line_end(chars@, i as int) == line_end(chars@, from as int),
        decreases chars.len() - i,
    {
        i += 1;
    }
    i
}

fn read_comment(chars: &Vec<char>, from: usize) -> (r: usize)
    requires
        from <= chars.len(),
    ensures
        r == comment_end(chars@, from as int),
        from <= r <= chars.len(),
{
    let mut i: usize = from;
    while chars.len() - i > 1 && !(chars[i] == '*' && chars[i + 1] == '/')
        invariant
            from <= i <= chars.len(),
            comment_end(chars@, i as int) == comment_end(chars@, from as int),
        decreases chars.len() - i,
    {
        i += 1;
    }
    i
}

fn slash_then(chars: &Vec<char>, i: usize, c: char) -> (r: bool)
    ensures
        r == (char_at(chars@, i as int) == Some('/') && char_at(chars@, i + 1) == Some(c)),
{
    i < chars.len() && chars[i] == '/' && chars.len() - i > 1 && chars[i + 1] == c
}

fn punctuation(c: char) -> (r: bool)
    ensures
        r == is_punctuation(c),
{
    c == '{' || c == '}' || c == '[' || c == ']' || c == ',' || c == ':'
}

fn read_word(chars: &Vec<char>, from: usize) -> (r: usize)
    requires
        from <= chars.len(),
    ensures
        r == word_end(chars@, from as int),
        from <= r <= chars.len(),
{
    let mut i: usize = from;
    while i < chars.len()
        invariant
            from <= i <= chars.len(),
            word_end(chars@, i as int) == word_end(chars@, from as int),
        decreases chars.len() - i,
    {
        let c = chars[i];
        if is_whitespace(c) || punctuation(c) || slash_then(chars, i, '/') || slash_then(chars, i, '*') {
            return i;
        }
        i += 1;
    }
    i
}

fn read_token(chars: &Vec<char>, i: usize) -> (r: Result<(TokenKind, usize), JsoncError>)
    requires
        i < chars.len(),
    ensures
        match r {
            Ok((kind, end)) => token_at(chars@, i as int) == Ok::<(TokenKind, int), JsoncError>((kind, end as int)) && i
                < end <= chars.len(),
            Err(e) => token_at(chars@, i as int) == Err::<(TokenKind, int), JsoncError>(e),
        },
{
    let c = chars[i];
    if c == '{' || c == '[' {
        Ok((TokenKind::Open, i + 1))
    } else if c == '}' || c == ']' {
        Ok((TokenKind::Close, i + 1))
    } else if c == ',' {
        Ok((TokenKind::Comma, i + 1))
    } else if c == ':' {
        Ok((TokenKind::Colon, i + 1))
    } else if c == '"' {
        let end = read_string(chars, i + 1);
        if chars[end - 1] != '"' {
            Err(JsoncError::UnterminatedString)
        } else {
            Ok((TokenKind::Value, end))
        }
    } else if slash_then(chars, i, '/') {
        Ok((TokenKind::LineComment, read_line(chars, i + 2)))
    } else if slash_then(chars, i, '*') {
        let end = read_comment(chars, i + 2);
        if chars.len() - end <= 1 {
            Err(JsoncError::UnterminatedComment)
        } else {
            Ok((TokenKind::BlockComment, end + 2))
        }
    } else {
        Ok((TokenKind::Value, read_word(chars, i + 1)))
    }
}

/// Splits a text into its tokens.
pub fn tokenize(text: &str) -> (r: Result<Vec<Token>, JsoncError>)
    ensures
        tokens_result(r) == text_tokens(text@),
{
    let chars = chars_of(text);
    let mut tokens: Vec<Token> = Vec::new();
    let mut index: usize = 0;
    assert(tokens_of(tokens@) =~= Seq::empty());
    while index < chars.len()
        invariant
            index <= chars.len(),
            chars@ == text@,
            tokens_from(text@, index as int, tokens_of(tokens@)) == text_tokens(text@),
        decreases chars.len() - index,
    {
        if is_whitespace(chars[index]) {
            index += 1;
        } else {
            match read_token(&chars, index) {
                Ok((kind, end)) => {
                    let token = Token { kind, text: text_from(&chars, index, end) };
                    assert(tokens_of(tokens@.push(token)) =~= tokens_of(tokens@).push(token@));
                    tokens.push(token);
                    index = end;
                },
                Err(e) => {
                    return Err(e);
                },
            }
        }
    }
    Ok(tokens)
}

/// A token is the piece of a text that ends at `end`, and only white space stands between `before` and it.
pub open spec fn is_piece(s: Seq<char>, text: Seq<char>, before: int, end: int) -> bool {
    let start = end - text.len();
    &&& before <= start < end <= s.len()
    &&& s.subrange(start, end) == text
    &&& white_between(s, before, start)
}

pub open spec fn white_between(s: Seq<char>, from: int, to: int) -> bool {
    forall|i: int| from <= i < to ==> char_is_whitespace(#[trigger] s[i])
}

/// The last of some places, or the start of the text.
pub open spec fn last_end(ends: Seq<int>) -> int {
    if ends.len() > 0 {
        ends.last()
    } else {
        0
    }
}

/// The tokens, in order, are pieces of a text that follow each other, with only white space between them.
pub open spec fn spelled(s: Seq<char>, tokens: Seq<TokenModel>, ends: Seq<int>) -> bool
    decreases tokens.len(),
{
    &&& tokens.len() == ends.len()
    &&& tokens.len() > 0 ==> spelled(s, tokens.drop_last(), ends.drop_last()) && is_piece(
        s,
        tokens.last().text,
        last_end(ends.drop_last()),
        ends.last(),
    )
}

proof fn lemma_spelled(s: Seq<char>, i: int, read: Seq<TokenModel>, ends: Seq<int>) -> (all: Seq<int>)
    requires
        0 <= i <= s.len(),
        tokens_from(s, i, read) is Ok,
        spelled(s, read, ends),
        0 <= last_end(ends) <= i,
        white_between(s, last_end(ends), i),
    ensures
        spelled(s, tokens_from(s, i, read)->Ok_0, all),
        white_between(s, last_end(all), s.len() as int),
    decreases s.len() - i,
{
    if i >= s.len() {
        ends
    } else if char_is_whitespace(s[i]) {
        lemma_spelled(s, i + 1, read, ends)
    } else {
        lemma_token_end(s, i);
        let (kind, end) = token_at(s, i)->Ok_0;
        let token = TokenModel { kind, text: s.subrange(i, end) };
        let more = ends.push(end);
        assert(more.drop_last() =~= ends);
        assert(read.push(token).drop_last() =~= read);
        assert(is_piece(s, token.text, last_end(ends), end));
        assert(spelled(s, read.push(token), more));
        lemma_spelled(s, end, read.push(token), more)
    }
}

/// The tokens of a text cover it: each is a piece of it, they follow each other, and what stands between,
/// before and after them is white space.
pub proof fn law_tokens_cover_the_text(s: Seq<char>) -> (ends: Seq<int>)
    requires
        text_tokens(s) is Ok,
    ensures
        spelled(s, text_tokens(s)->Ok_0, ends),
        white_between(s, last_end(ends), s.len() as int),
{
    lemma_spelled(s, 0, Seq::empty(), Seq::empty())
}

pub open spec fn is_comment(kind: TokenKind) -> bool {
    kind == TokenKind::LineComment || kind == TokenKind::BlockComment
}

/// Whether a text holds a comment.
pub fn has_jsonc_comments(text: &str) -> (r: Result<bool, JsoncError>)
    ensures
        match r {
            Ok(found) => text_tokens(text@) is Ok && found == (exists|i: int|
                0 <= i < text_tokens(text@)->Ok_0.len() && is_comment((#[trigger] text_tokens(text@)->Ok_0[i]).kind)),
            Err(e) => text_tokens(text@) == Err::<Seq<TokenModel>, JsoncError>(e),
        },
{
    let tokens = match tokenize(text) {
        Ok(tokens) => tokens,
        Err(e) => {
            return Err(e);
        },
    };
    let mut found = false;
    let mut i: usize = 0;
    while i < tokens.len()
        invariant
            i <= tokens.len(),
            found == (exists|j: int| 0 <= j < i && is_comment((#[trigger] tokens_of(tokens@)[j]).kind)),
        decreases tokens.len() - i,
    {
        assert(tokens_of(tokens@)[i as int].kind == tokens@[i as int].kind);
        match tokens[i].kind {
            TokenKind::LineComment => {
                found = true;
            },
            TokenKind::BlockComment => {
                found = true;
            },
            _ => {},
        }
        i += 1;
    }
    Ok(found)
}

/// The tokens without comments.
pub open spec fn without_comments(tokens: Seq<TokenModel>) -> Seq<TokenModel> {
    tokens.filter(|t: TokenModel| !is_comment(t.kind))
}

/// The texts of the first `n` tokens one after the other, without commas that a closing bracket follows.
pub open spec fn plain_text(tokens: Seq<TokenModel>, n: nat) -> Seq<char>
    decreases n,
{
    if n == 0 {
        Seq::empty()
    } else {
        let before = plain_text(tokens, (n - 1) as nat);
        if tokens[n - 1].kind == TokenKind::Comma && n < tokens.len() && tokens[n as int].kind == TokenKind::Close {
            before
        } else {
            before + tokens[n - 1].text
        }
    }
}

/// Plain JSON from a text: without comments, white space between tokens, and trailing commas.
pub fn jsonc_to_json(text: &str) -> (r: Result<String, JsoncError>)
    ensures
        match r {
            Ok(json) => text_tokens(text@) is Ok && json@ == plain_text(
                without_comments(text_tokens(text@)->Ok_0),
                without_comments(text_tokens(text@)->Ok_0).len(),
            ),
            Err(e) => text_tokens(text@) == Err::<Seq<TokenModel>, JsoncError>(e),
        },
{
    let tokens = match tokenize(text) {
        Ok(tokens) => tokens,
        Err(e) => {
            return Err(e);
        },
    };
    let ghost all = tokens_of(tokens@);
    let ghost kept = |t: TokenModel| !is_comment(t.kind);
    let mut plain: Vec<Token> = Vec::new();
    let mut i: usize = 0;
    assert(all.take(0).filter(kept) =~= tokens_of(plain@));
    while i < tokens.len()
        invariant
            i <= tokens.len(),
            all == tokens_of(tokens@),
            kept == (|t: TokenModel| !is_comment(t.kind)),
            tokens_of(plain@) == all.take(i as int).filter(kept),
        decreases tokens.len() - i,
    {
        let ghost x = all[i as int];
        proof {
            assert(all.take(i + 1) =~= all.take(i as int).push(x));
            all.take(i as int).lemma_filter_push(x, kept);
            assert(x == tokens@[i as int]@);
        }
        match tokens[i].kind {
            TokenKind::LineComment => {},
            TokenKind::BlockComment => {},
            _ => {
                let token = Token { kind: tokens[i].kind, text: tokens[i].text.clone() };
                assert(tokens_of(plain@.push(token)) =~= tokens_of(plain@).push(token@));
                plain.push(token);
            },
        }
        i += 1;
    }
    assert(all.take(i as int) =~= all);
    let ghost rest = tokens_of(plain@);
    let mut json = String::new();
    let mut k: usize = 0;
    while k < plain.len()
        invariant
            k <= plain.len(),
            rest == tokens_of(plain@),
            json@ == plain_text(rest, k as nat),
        decreases plain.len() - k,
    {
        assert(rest[k as int] == plain@[k as int]@);
        let comma = match plain[k].kind {
            TokenKind::Comma => true,
            _ => false,
        };
        let before_close = if k + 1 < plain.len() {
            assert(rest[k + 1] == plain@[k + 1]@);
            match plain[k + 1].kind {
                TokenKind::Close => true,
                _ => false,
            }
        } else {
            false
        };
        if !(comma && before_close) {
            json.append(&plain[k].text);
        }
        k += 1;
    }
    Ok(json)
}

/// A string, read from `i` on, comes to its closing quotation mark.
pub open spec fn closed_at(s: Seq<char>, i: int, escaped: bool) -> bool
    decreases s.len() - i,
{
    if i >= s.len() || i < 0 {
        false
    } else if escaped {
        closed_at(s, i + 1, false)
    } else if s[i] == '\\' {
        closed_at(s, i + 1, true)
    } else if s[i] == '"' {
        true
    } else {
        closed_at(s, i + 1, false)
    }
}

/// A string of JSON may start here: at the start, or behind white space of JSON, a bracket that opens, a
/// comma or a colon.
pub open spec fn may_open(s: Seq<char>, i: int) -> bool {
    i == 0 || s[i - 1] == ' ' || s[i - 1] == '\n' || s[i - 1] == '\r' || s[i - 1] == '\t' || s[i - 1] == '{' || s[i - 1] == '['
        || s[i - 1] == ',' || s[i - 1] == ':'
}

/// From `i` on, which is in no string, every quotation mark outside of strings starts one where one may
/// start, and every string is closed.
pub open spec fn strings_close(s: Seq<char>, i: int) -> bool
    decreases s.len() - i,
{
    if i < 0 || i >= s.len() {
        true
    } else if s[i] != '"' {
        strings_close(s, i + 1)
    } else {
        let end = string_end(s, i + 1, false);
        may_open(s, i) && closed_at(s, i + 1, false) && (i < end <= s.len() ==> strings_close(s, end))
    }
}

/// What `serde_json::from_str` reads from a text as a JSON value: nothing where the text is no JSON.
pub uninterp spec fn json_read(text: Seq<char>) -> Option<JsonModel>;

/// A value of `serde_json`.
#[verifier::external_type_specification]
#[verifier::external_body]
pub struct ExValue(serde_json::Value);

/// A value of `serde_json` variant by variant; integers that it keeps exactly stay integers, and another
/// number becomes the text that `serde_json` writes for it. Nothing is stated here: what a text is read as
/// is stated of `read_json`.
#[verifier::external_body]
fn json_of(value: Value) -> (r: Json) {
    match value {
        Value::Null => Json::Null,
        Value::Bool(b) => Json::Bool(b),
        Value::Number(n) => Json::Number(match (n.as_u64(), n.as_i64()) {
            (Some(n), _) => Number::Unsigned(n),
            (None, Some(n)) => Number::Negative(n),
            (None, None) => Number::Other(n.to_string()),
        }),
        Value::String(s) => Json::Text(s),
        Value::Array(items) => Json::Array(items.into_iter().map(json_of).collect()),
        Value::Object(map) => Json::Object(
            map.into_iter().map(|(key, value)| Member { key, value: json_of(value) }).collect(),
        ),
    }
}

/// `serde_json::from_str` into a `serde_json::Value`: what the text says, which depends on the text alone,
/// or nothing where it is no JSON. A text that is read opens a string only where a value or a key may stand,
/// and closes every string.
#[verifier::external_body]
pub(crate) fn read_json(text: &str) -> (r: Option<Json>)
    ensures
        opt_json(r) == json_read(text@),
        r is Some ==> strings_close(text@, 0),
{
    serde_json::from_str::<Value>(text).ok().map(json_of)
}

/// What `serde_json::to_string_pretty` writes for a JSON value.
pub uninterp spec fn json_pretty(value: JsonModel) -> Seq<char>;

/// A value of `serde_json` variant by variant, the other way round; the text of a number is read as
/// `serde_json` reads it. Nothing is stated here: what is written for a value is stated of `pretty_json`.
#[verifier::external_body]
fn value_from(json: &Json) -> (r: Value) {
    match json {
        Json::Null => Value::Null,
        Json::Bool(b) => Value::Bool(*b),
        Json::Number(Number::Unsigned(n)) => Value::from(*n),
        Json::Number(Number::Negative(n)) => Value::from(*n),
        Json::Number(Number::Other(text)) => serde_json::from_str(text).unwrap_or(Value::Null),
        Json::Text(s) => Value::String(s.clone()),
        Json::Array(items) => Value::Array(items.iter().map(value_from).collect()),
        Json::Object(members) => Value::Object(
            members.iter().map(|m| (m.key.clone(), value_from(&m.value))).collect(),
        ),
    }
}

/// `serde_json::to_string_pretty` of a `serde_json::Value`: the text depends on the value alone, since
/// `serde_json` keeps the members of an object by their keys. Writing a value does not fail.
#[verifier::external_body]
pub(crate) fn pretty_json(json: &Json) -> (r: String)
    ensures
        r@ == json_pretty(json@),
{
    serde_json::to_string_pretty(&value_from(json)).expect("a JSON value can be written")
}

/// Why a text with comments can not be read.
#[derive(PartialEq, Eq, Structural, Clone, Copy, Debug)]
pub enum ParseError {
    /// It can not be taken apart.
    Tokens(JsoncError),
    /// What is left without comments is no JSON.
    Json,
}

/// What a text says that may hold comments and trailing commas.
pub open spec fn jsonc_value(text: Seq<char>) -> Result<JsonModel, ParseError> {
    match text_tokens(text) {
        Err(e) => Err(ParseError::Tokens(e)),
        Ok(tokens) => match json_read(plain_text(without_comments(tokens), without_comments(tokens).len())) {
            Some(v) => Ok(v),
            None => Err(ParseError::Json),
        },
    }
}

/// Reads a text that may hold comments and trailing commas. One that can be read does not end in an open
/// string, so that formatting keeps what it says.
pub fn parse_jsonc_value(text: &str) -> (r: Result<Json, ParseError>)
    ensures
        match jsonc_value(text@) {
            Ok(v) => r is Ok && r->Ok_0@ == v,
            Err(e) => r is Err && r->Err_0 == e,
        },
        r is Ok ==> {
            let new = formatted(text_tokens(text@)->Ok_0);
            &&& end_closed(text_tokens(text@)->Ok_0)
            &&& jsonc_value(new) == jsonc_value(text@)
            &&& text_tokens(new) is Ok
            &&& formatted(text_tokens(new)->Ok_0) == new
        },
{
    match jsonc_to_json(text) {
        Ok(plain) => match read_json(&plain) {
            Some(v) => {
                proof {
                    lemma_read_text_is_closed(text@);
                    law_formatting_keeps_the_value(text@);
                    law_formatting_settles(text@);
                }
                Ok(v)
            },
            None => Err(ParseError::Json),
        },
        Err(e) => Err(ParseError::Tokens(e)),
    }
}

/// A formatted text so far: what is written, how deep the brackets are, and whether a line was just
/// started.
#[verifier::ext_equal]
pub struct FormatState {
    pub out: Seq<char>,
    pub depth: nat,
    pub line_start: bool,
}

/// `n` spaces.
pub open spec fn spaces(n: nat) -> Seq<char> {
    Seq::new(n, |i: int| ' ')
}

/// Two spaces for each level, at the start of a line.
pub open spec fn indented(f: FormatState) -> FormatState {
    if f.line_start {
        FormatState { out: f.out + spaces(2 * f.depth), line_start: false, ..f }
    } else {
        f
    }
}

/// What is written, with a new line.
pub open spec fn broken_line(f: FormatState) -> FormatState {
    FormatState { out: f.out.push('\n'), line_start: true, ..f }
}

pub open spec fn written(f: FormatState, text: Seq<char>) -> FormatState {
    FormatState { out: f.out + text, ..f }
}

/// A space, unless one or a new line was just written.
pub open spec fn spaced(f: FormatState) -> FormatState {
    if f.out.len() > 0 && (f.out.last() == ' ' || f.out.last() == '\n') {
        f
    } else {
        FormatState { out: f.out.push(' '), ..f }
    }
}

/// A token written after others. Values and brackets that open start indented; every bracket that opens
/// and every comma ends its line; a bracket that closes gets a line of its own, unless nothing stands
/// between it and the one that opened.
pub open spec fn token_written(f: FormatState, previous: Option<TokenKind>, token: TokenModel, next: Option<TokenKind>) -> FormatState {
    match token.kind {
        TokenKind::Open => {
            let opened = written(indented(f), token.text);
            let deeper = FormatState { depth: opened.depth + 1, ..opened };
            if next != Some(TokenKind::Close) {
                broken_line(deeper)
            } else {
                deeper
            }
        },
        TokenKind::Close => {
            let up = FormatState {
                depth: if f.depth > 0 {
                    (f.depth - 1) as nat
                } else {
                    0
                },
                ..f
            };
            let line = if up.line_start {
                up
            } else {
                broken_line(up)
            };
            written(indented(line), token.text)
        },
        TokenKind::Comma => broken_line(FormatState { out: f.out.push(','), ..f }),
        TokenKind::Colon => FormatState { out: f.out.push(':').push(' '), line_start: false, ..f },
        TokenKind::Value => {
            let start = indented(f);
            let gap = if previous == Some(TokenKind::Value) || previous == Some(TokenKind::BlockComment) {
                FormatState { out: start.out.push(' '), ..start }
            } else {
                start
            };
            written(gap, token.text)
        },
        TokenKind::LineComment => broken_line(written(spaced(indented(f)), trimmed_end(token.text))),
        TokenKind::BlockComment => {
            let comment = written(spaced(indented(f)), trimmed(token.text));
            if next == Some(TokenKind::Value) || next == Some(TokenKind::Open) || next == Some(TokenKind::LineComment)
                || next == Some(TokenKind::BlockComment) {
                broken_line(comment)
            } else {
                comment
            }
        },
    }
}

/// The kind of the token at a place.
pub open spec fn kind_at(tokens: Seq<TokenModel>, i: int) -> Option<TokenKind> {
    if 0 <= i < tokens.len() {
        Some(tokens[i].kind)
    } else {
        None
    }
}

/// The first `n` tokens written.
pub open spec fn tokens_written(tokens: Seq<TokenModel>, n: nat) -> FormatState
    decreases n,
{
    if n == 0 {
        FormatState { out: Seq::empty(), depth: 0, line_start: true }
    } else {
        token_written(
            tokens_written(tokens, (n - 1) as nat),
            kind_at(tokens, n - 2),
            tokens[n - 1],
            kind_at(tokens, n as int),
        )
    }
}

pub open spec fn is_blank(c: char) -> bool {
    c == ' ' || c == '\t' || c == '\r' || c == '\n'
}

/// A text without spaces, tabs and line ends at its end.
pub open spec fn unpadded(s: Seq<char>) -> Seq<char>
    decreases s.len(),
{
    if s.len() > 0 && is_blank(s.last()) {
        unpadded(s.drop_last())
    } else {
        s
    }
}

/// The tokens of a text, formatted.
pub open spec fn formatted(tokens: Seq<TokenModel>) -> Seq<char> {
    unpadded(tokens_written(tokens, tokens.len()).out).push('\n')
}

struct Formatter {
    out: Vec<char>,
    depth: usize,
    line_start: bool,
}

impl View for Formatter {
    type V = FormatState;

    closed spec fn view(&self) -> FormatState {
        FormatState { out: self.out@, depth: self.depth as nat, line_start: self.line_start }
    }
}

impl Formatter {
    fn indent(&mut self)
        ensures
            final(self)@ == indented(old(self)@),
            final(self).depth == old(self).depth,
    {
        if self.line_start {
            let ghost start = self.out@;
            let mut i: usize = 0;
            assert(start + spaces(0) =~= start);
            while i < self.depth
                invariant
                    i <= self.depth,
                    self.depth == old(self).depth,
                    self.line_start == old(self).line_start,
                    self.out@ == start + spaces((2 * i) as nat),
                decreases self.depth - i,
            {
                self.out.push(' ');
                self.out.push(' ');
                assert(start + spaces((2 * (i + 1)) as nat) =~= (start + spaces((2 * i) as nat)).push(' ').push(' '));
                i += 1;
            }
            self.line_start = false;
        }
    }

    fn break_line(&mut self)
        ensures
            final(self)@ == broken_line(old(self)@),
            final(self).depth == old(self).depth,
    {
        self.out.push('\n');
        self.line_start = true;
    }

    fn write_text(&mut self, text: &str)
        ensures
            final(self)@ == written(old(self)@, text@),
            final(self).depth == old(self).depth,
    {
        push_chars(&mut self.out, text);
    }

    fn space(&mut self)
        ensures
            final(self)@ == spaced(old(self)@),
            final(self).depth == old(self).depth,
    {
        let n = self.out.len();
        if n > 0 && (self.out[n - 1] == ' ' || self.out[n - 1] == '\n') {
            return;
        }
        self.out.push(' ');
    }

    fn write_token(&mut self, previous: Option<TokenKind>, token: &Token, next: Option<TokenKind>)
        requires
            old(self).depth < usize::MAX,
        ensures
            final(self)@ == token_written(old(self)@, previous, token@, next),
            final(self).depth <= old(self).depth + 1,
    {
        match token.kind {
            TokenKind::Open => {
                self.indent();
                self.write_text(&token.text);
                self.depth = self.depth + 1;
                let empty = match next {
                    Some(TokenKind::Close) => true,
                    _ => false,
                };
                if !empty {
                    self.break_line();
                }
            },
            TokenKind::Close => {
                if self.depth > 0 {
                    self.depth = self.depth - 1;
                }
                if !self.line_start {
                    self.break_line();
                }
                self.indent();
                self.write_text(&token.text);
            },
            TokenKind::Comma => {
                self.out.push(',');
                self.break_line();
            },
            TokenKind::Colon => {
                self.out.push(':');
                self.out.push(' ');
                self.line_start = false;
            },
            TokenKind::Value => {
                self.indent();
                match previous {
                    Some(TokenKind::Value) => {
                        self.out.push(' ');
                    },
                    Some(TokenKind::BlockComment) => {
                        self.out.push(' ');
                    },
                    _ => {},
                }
                self.write_text(&token.text);
            },
            TokenKind::LineComment => {
                self.indent();
                self.space();
                let text = trim_end(&token.text);
                self.write_text(&text);
                self.break_line();
            },
            TokenKind::BlockComment => {
                self.indent();
                self.space();
                let text = trim(&token.text);
                self.write_text(&text);
                match next {
                    Some(TokenKind::Value) => self.break_line(),
                    Some(TokenKind::Open) => self.break_line(),
                    Some(TokenKind::LineComment) => self.break_line(),
                    Some(TokenKind::BlockComment) => self.break_line(),
                    _ => {},
                }
            },
        }
    }
}

/// Formats a text: one value or key to a line, two spaces for each level, and comments kept.
pub fn format_jsonc(text: &str) -> (r: Result<String, JsoncError>)
    ensures
        match r {
            Ok(out) => text_tokens(text@) is Ok && out@ == formatted(text_tokens(text@)->Ok_0),
            Err(e) => text_tokens(text@) == Err::<Seq<TokenModel>, JsoncError>(e),
        },
{
    let tokens = match tokenize(text) {
        Ok(tokens) => tokens,
        Err(e) => {
            return Err(e);
        },
    };
    let ghost all = tokens_of(tokens@);
    let mut f = Formatter { out: Vec::new(), depth: 0, line_start: true };
    let mut i: usize = 0;
    let mut previous: Option<TokenKind> = None;
    assert(f@ =~= tokens_written(all, 0));
    while i < tokens.len()
        invariant
            i <= tokens.len(),
            all == tokens_of(tokens@),
            f@ == tokens_written(all, i as nat),
            f.depth <= i,
            previous == kind_at(all, i - 1),
        decreases tokens.len() - i,
    {
        assert(all[i as int] == tokens@[i as int]@);
        let next = if i + 1 < tokens.len() {
            assert(all[i + 1] == tokens@[i + 1]@);
            Some(tokens[i + 1].kind)
        } else {
            None
        };
        f.write_token(previous, &tokens[i], next);
        previous = Some(tokens[i].kind);
        i += 1;
    }
    let mut n: usize = f.out.len();
    let ghost whole = f.out@;
    assert(whole.take(n as int) =~= whole);
    while n > 0 && (f.out[n - 1] == ' ' || f.out[n - 1] == '\t' || f.out[n - 1] == '\r' || f.out[n - 1] == '\n')
        invariant
            n <= f.out.len(),
            whole == f.out@,
            unpadded(whole.take(n as int)) == unpadded(whole),
        decreases n,
    {
        assert(whole.take(n as int).drop_last() =~= whole.take(n - 1));
        n -= 1;
    }
    let mut out = text_from(&f.out, 0, n);
    assert(out@ =~= whole.take(n as int));
    out.push('\n');
    Ok(out)
}

proof fn lemma_unpadded(s: Seq<char>)
    ensures
        unpadded(s).len() > 0 ==> !is_blank(unpadded(s).last()),
    decreases s.len(),
{
    if s.len() > 0 && is_blank(s.last()) {
        lemma_unpadded(s.drop_last());
    }
}

/// A formatted text ends in one line end, and nothing blank stands before it.
pub proof fn law_formatted_text_ends_in_a_line(tokens: Seq<TokenModel>)
    ensures
        formatted(tokens).len() > 0,
        formatted(tokens).last() == '\n',
        formatted(tokens).len() > 1 ==> !is_blank(formatted(tokens)[formatted(tokens).len() - 2]),
{
    lemma_unpadded(tokens_written(tokens, tokens.len()).out);
}

} // verus!
