//! Filters: which instances, properties and attributes take part in a sync.
use vstd::prelude::*;

use crate::json::{elements, entries, get, lemma_entry_of, lemma_key_counts, Json, JsonModel, Member};
use crate::link_apply::value_of;
use crate::links::opt_text;
use crate::references::lemma_element;
use crate::text::{chars_of, holds_text, join_texts, joined_by, lemma_texts_push, same, texts};

verus! {

broadcast use vstd::seq_lib::group_seq_properties;

#[derive(PartialEq, Eq, Structural, Clone, Copy, Debug)]
pub enum FilterAction {
    Include,
    Ignore,
}

#[derive(PartialEq, Eq, Structural, Clone, Copy, Debug)]
pub enum FilterDirection {
    Both,
    StudioToFiles,
    FilesToStudio,
}

impl Default for FilterAction {
    fn default() -> (r: Self)
        ensures
            r == FilterAction::Ignore,
    {
        FilterAction::Ignore
    }
}

impl Default for FilterDirection {
    fn default() -> (r: Self)
        ensures
            r == FilterDirection::Both,
    {
        FilterDirection::Both
    }
}

/// A rule: what it does to what it matches. Every condition that is given has to hold, and one has to be
/// given.
pub struct FilterRule {
    pub action: FilterAction,
    pub direction: FilterDirection,
    pub glob: Option<String>,
    pub name: Option<String>,
    pub class: Option<String>,
    pub tag: Option<String>,
    pub attribute: Option<String>,
    pub property: Option<String>,
    pub id: Option<String>,
}

impl Default for FilterRule {
    fn default() -> (r: Self)
        ensures
            r.action == FilterAction::Ignore,
            r.direction == FilterDirection::Both,
            r.glob is None && r.name is None && r.class is None && r.tag is None,
            r.attribute is None && r.property is None && r.id is None,
    {
        FilterRule {
            action: FilterAction::Ignore,
            direction: FilterDirection::Both,
            glob: None,
            name: None,
            class: None,
            tag: None,
            attribute: None,
            property: None,
            id: None,
        }
    }
}

/// An instance that rules are held against.
pub struct FilterCandidate<'a> {
    pub id: &'a str,
    pub path: &'a str,
    pub name: &'a str,
    pub class: &'a str,
    pub tags: &'a Vec<String>,
    pub attributes: &'a Vec<String>,
    pub properties: &'a Vec<String>,
}

/// The tags of an instance, and the names of its attributes and properties.
pub struct FilterCandidateFields {
    pub tags: Vec<String>,
    pub attributes: Vec<String>,
    pub properties: Vec<String>,
}

impl FilterCandidateFields {
    /// The instance with these fields.
    pub fn candidate<'a>(&'a self, id: &'a str, path: &'a str, name: &'a str, class: &'a str) -> (r: FilterCandidate<'a>)
        ensures
            r.id@ == id@,
            r.path@ == path@,
            r.name@ == name@,
            r.class@ == class@,
            *r.tags == self.tags,
            *r.attributes == self.attributes,
            *r.properties == self.properties,
    {
        FilterCandidate {
            id,
            path,
            name,
            class,
            tags: &self.tags,
            attributes: &self.attributes,
            properties: &self.properties,
        }
    }
}

/// The texts among the first `n` items of an array.
pub open spec fn texts_among(items: Seq<JsonModel>, n: nat) -> Seq<Seq<char>>
    decreases n,
{
    if n == 0 {
        Seq::empty()
    } else {
        match items[n - 1] {
            JsonModel::Text(s) => texts_among(items, (n - 1) as nat).push(s),
            _ => texts_among(items, (n - 1) as nat),
        }
    }
}

/// The tags that properties give.
pub open spec fn tags_in(properties: Map<Seq<char>, JsonModel>) -> Seq<Seq<char>> {
    match value_of(properties, "Tags"@) {
        Some(JsonModel::Array(items)) => texts_among(items, items.len()),
        _ => Seq::empty(),
    }
}

/// The keys of an object.
pub fn key_names(m: &Vec<Member>) -> (r: Vec<String>)
    ensures
        forall|k: Seq<char>| #[trigger] texts(r@).contains(k) <==> entries(m@).dom().contains(k),
{
    let mut out: Vec<String> = Vec::new();
    let mut i: usize = 0;
    while i < m.len()
        invariant
            i <= m.len(),
            out@.len() == i,
            forall|j: int| 0 <= j < i ==> #[trigger] texts(out@)[j] == m@[j].key@,
        decreases m.len() - i,
    {
        let ghost before = out@;
        let key = m[i].key.clone();
        proof {
            lemma_texts_push(out@, key);
        }
        out.push(key);
        i += 1;
    }
    assert forall|k: Seq<char>| #[trigger] texts(out@).contains(k) <==> entries(m@).dom().contains(k) by {
        if texts(out@).contains(k) {
            let j = choose|j: int| 0 <= j < texts(out@).len() && texts(out@)[j] == k;
            lemma_key_counts(m@, j);
        }
        if entries(m@).dom().contains(k) {
            let j = lemma_entry_of(m@, k);
            assert(texts(out@)[j] == k);
        }
    }
    out
}

/// The fields of an instance that rules look at.
pub fn filter_candidate_fields(properties: &Vec<Member>, attributes: &Vec<Member>) -> (r: FilterCandidateFields)
    ensures
        texts(r.tags@) == tags_in(entries(properties@)),
        forall|k: Seq<char>| #[trigger]
            texts(r.attributes@).contains(k) <==> entries(attributes@).dom().contains(k),
        forall|k: Seq<char>| #[trigger]
            texts(r.properties@).contains(k) <==> entries(properties@).dom().contains(k),
{
    let mut tags: Vec<String> = Vec::new();
    assert(texts(tags@) =~= Seq::<Seq<char>>::empty());
    match get(properties, "Tags") {
        Some(Json::Array(items)) => {
            let ghost all = elements(items@);
            let mut i: usize = 0;
            while i < items.len()
                invariant
                    i <= items.len(),
                    all == elements(items@),
                    texts(tags@) == texts_among(all, i as nat),
                decreases items.len() - i,
            {
                proof {
                    lemma_element(items@, i as int);
                }
                match &items[i] {
                    Json::Text(s) => {
                        let tag = s.clone();
                        proof {
                            lemma_texts_push(tags@, tag);
                        }
                        tags.push(tag);
                    },
                    _ => {},
                }
                i += 1;
            }
        },
        _ => {},
    }
    FilterCandidateFields { tags, attributes: key_names(attributes), properties: key_names(properties) }
}

/// A segment of a path with `~` and `/` written in two characters each.
pub open spec fn escaped_segment(s: Seq<char>) -> Seq<char>
    decreases s.len(),
{
    if s.len() == 0 {
        s
    } else {
        let before = escaped_segment(s.drop_last());
        if s.last() == '~' {
            before.push('~').push('0')
        } else if s.last() == '/' {
            before.push('~').push('1')
        } else {
            before.push(s.last())
        }
    }
}

pub open spec fn escaped_segments(v: Seq<Seq<char>>) -> Seq<Seq<char>> {
    Seq::new(v.len(), |i: int| escaped_segment(v[i]))
}

fn escape_segment(s: &str) -> (r: String)
    ensures
        r@ == escaped_segment(s@),
{
    let chars = chars_of(s);
    let mut out = String::new();
    let mut i: usize = 0;
    assert(s@.take(0) =~= Seq::empty());
    while i < chars.len()
        invariant
            i <= chars.len(),
            chars@ == s@,
            out@ == escaped_segment(s@.take(i as int)),
        decreases chars.len() - i,
    {
        assert(s@.take(i + 1).drop_last() =~= s@.take(i as int));
        let c = chars[i];
        if c == '~' {
            out.push('~');
            out.push('0');
        } else if c == '/' {
            out.push('~');
            out.push('1');
        } else {
            out.push(c);
        }
        i += 1;
    }
    assert(s@.take(i as int) =~= s@);
    out
}

/// The path that globs are held against: the segments with slashes between them, and those inside
/// segments written otherwise.
pub fn filter_path_segments(segments: &Vec<String>) -> (r: String)
    ensures
        r@ == joined_by(escaped_segments(texts(segments@)), "/"@),
{
    let ghost want = escaped_segments(texts(segments@));
    let mut parts: Vec<String> = Vec::new();
    let mut i: usize = 0;
    while i < segments.len()
        invariant
            i <= segments.len(),
            want == escaped_segments(texts(segments@)),
            texts(parts@) == want.take(i as int),
        decreases segments.len() - i,
    {
        let part = escape_segment(&segments[i]);
        proof {
            lemma_texts_push(parts@, part);
            assert(want.take(i + 1) =~= want.take(i as int).push(part@));
        }
        parts.push(part);
        i += 1;
    }
    assert(want.take(i as int) =~= want);
    join_texts(&parts, "/")
}

/// Different segments are written differently.
pub proof fn law_segment_escape_is_injective(a: Seq<char>, b: Seq<char>)
    requires
        escaped_segment(a) == escaped_segment(b),
    ensures
        a == b,
    decreases a.len(),
{
    lemma_escape_len(a);
    lemma_escape_len(b);
    if a.len() > 0 && b.len() > 0 {
        let x = escaped_segment(a.drop_last());
        let y = escaped_segment(b.drop_last());
        let ea = escaped_segment(a);
        let eb = escaped_segment(b);
        lemma_escape_last(a);
        lemma_escape_last(b);
        assert(ea.last() == eb.last());
        let special_a = a.last() == '~' || a.last() == '/';
        let special_b = b.last() == '~' || b.last() == '/';
        if special_a {
            assert(ea[ea.len() - 2] == '~');
            assert(x =~= ea.take(ea.len() - 2));
        } else {
            assert(x =~= ea.take(ea.len() - 1));
        }
        if special_b {
            assert(eb[eb.len() - 2] == '~');
            assert(y =~= eb.take(eb.len() - 2));
        } else {
            assert(y =~= eb.take(eb.len() - 1));
        }
        if special_a && !special_b {
            lemma_tilde_is_followed(b.drop_last());
            assert(y.last() == '~');
        } else if special_b && !special_a {
            lemma_tilde_is_followed(a.drop_last());
            assert(x.last() == '~');
        }
        assert(special_a == special_b);
        assert(a.last() == b.last());
        assert(x == y);
        law_segment_escape_is_injective(a.drop_last(), b.drop_last());
        assert(a =~= a.drop_last().push(a.last()));
        assert(b =~= b.drop_last().push(b.last()));
    } else {
        assert(a =~= b);
    }
}

proof fn lemma_escape_len(s: Seq<char>)
    ensures
        escaped_segment(s).len() >= s.len(),
    decreases s.len(),
{
    if s.len() > 0 {
        lemma_escape_len(s.drop_last());
    }
}

proof fn lemma_escape_last(s: Seq<char>)
    requires
        s.len() > 0,
    ensures
        escaped_segment(s).len() > 0,
        escaped_segment(s).last() == if s.last() == '~' {
            '0'
        } else if s.last() == '/' {
            '1'
        } else {
            s.last()
        },
{
}

/// A tilde never ends what is written for a segment.
proof fn lemma_tilde_is_followed(s: Seq<char>)
    ensures
        escaped_segment(s).len() > 0 ==> escaped_segment(s).last() != '~',
{
}

/// What a matcher of `globset` answers for a pattern and a path: nothing where the pattern is not valid.
pub uninterp spec fn glob_match(pattern: Seq<char>, path: Seq<char>) -> Option<bool>;

/// How many braces a pattern opens.
pub open spec fn braces(pattern: Seq<char>) -> nat
    decreases pattern.len(),
{
    if pattern.len() == 0 {
        0
    } else {
        braces(pattern.drop_last()) + if pattern.last() == '{' {
            1nat
        } else {
            0
        }
    }
}

/// A pattern far below the size and the nesting at which compiling it is given up.
pub open spec fn small_glob(pattern: Seq<char>) -> bool {
    pattern.len() <= 4096 && braces(pattern) <= 50
}

/// What is read the same on every machine: a pattern that is not very large, and no backslash, which is a
/// separator on some.
pub open spec fn portable_glob(pattern: Seq<char>, path: Seq<char>) -> bool {
    small_glob(pattern) && !pattern.contains('\\') && !path.contains('\\')
}

/// `globset::Glob::new`, `globset::Glob::compile_matcher` and `globset::GlobMatcher::is_match`: whether the
/// path matches the pattern, or nothing where the pattern is not valid. Where neither holds a backslash the
/// answer depends on the two texts alone. Compiling panics on a pattern that is too large or nests too
/// deeply, so small ones alone are taken: a pattern becomes a regular expression of a length in proportion,
/// with a group for each brace.
#[verifier::external_body]
fn match_small_glob(pattern: &str, path: &str) -> (r: Option<bool>)
    requires
        small_glob(pattern@),
    ensures
        portable_glob(pattern@, path@) ==> r == glob_match(pattern@, path@),
{
    Some(globset::Glob::new(pattern).ok()?.compile_matcher().is_match(path))
}

/// `globset::Glob::new` and a `globset::GlobSet` of that glob, which is not built where the pattern is too
/// large. Nothing is stated of the answer: how large that is depends on the machine.
#[verifier::external_body]
fn match_large_glob(pattern: &str, path: &str) -> (r: Option<bool>) {
    let glob = globset::Glob::new(pattern).ok()?;
    let set = globset::GlobSet::builder().add(glob).build().ok()?;
    Some(set.is_match(path))
}

fn is_small_glob(pattern: &str) -> (r: bool)
    ensures
        r == small_glob(pattern@),
{
    let chars = chars_of(pattern);
    if chars.len() > 4096 {
        return false;
    }
    let mut count: usize = 0;
    let mut i: usize = 0;
    assert(pattern@.take(0) =~= Seq::empty());
    while i < chars.len()
        invariant
            i <= chars.len() <= 4096,
            chars@ == pattern@,
            count <= i,
            count == braces(pattern@.take(i as int)),
        decreases chars.len() - i,
    {
        assert(pattern@.take(i + 1).drop_last() =~= pattern@.take(i as int));
        if chars[i] == '{' {
            count += 1;
        }
        i += 1;
    }
    assert(pattern@.take(i as int) =~= pattern@);
    count <= 50
}

/// Whether a path matches a pattern; nothing where the pattern can not be used. On a pattern that is not very
/// large, without backslashes, the answer is that of a matcher of the pattern.
pub(crate) fn match_glob(pattern: &str, path: &str) -> (r: Option<bool>)
    ensures
        portable_glob(pattern@, path@) ==> r == glob_match(pattern@, path@),
{
    if is_small_glob(pattern) {
        match_small_glob(pattern, path)
    } else {
        match_large_glob(pattern, path)
    }
}

/// What is filtered: an instance as a whole, one of its properties or attributes, or anything.
#[derive(Clone, Copy)]
pub enum FilterScope<'a> {
    Any,
    Instance,
    Property(&'a str),
    Attribute(&'a str),
}

/// A rule goes in a direction.
pub open spec fn rule_goes(rule: FilterRule, direction: FilterDirection) -> bool {
    rule.direction == FilterDirection::Both || rule.direction == direction
}

/// A rule speaks of what is filtered.
pub open spec fn rule_applies(rule: FilterRule, scope: FilterScope<'_>) -> bool {
    match scope {
        FilterScope::Any => true,
        FilterScope::Instance => rule.property is None && rule.attribute is None,
        FilterScope::Property(name) => rule.attribute is None && (rule.property is None || opt_text(rule.property)
            == Some(name@)),
        FilterScope::Attribute(name) => rule.property is None && (rule.attribute is None || opt_text(rule.attribute)
            == Some(name@)),
    }
}

/// A condition that is given holds.
pub open spec fn given_holds(condition: Option<String>, holds: bool) -> bool {
    condition is None || holds
}

/// Every condition of a rule that is given holds, and one is given.
pub open spec fn rule_matches(rule: FilterRule, c: FilterCandidate<'_>, scope: FilterScope<'_>, glob_hit: bool) -> bool {
    &&& given_holds(rule.glob, glob_hit)
    &&& given_holds(rule.name, opt_text(rule.name) == Some(c.name@))
    &&& given_holds(rule.class, opt_text(rule.class) == Some(c.class@))
    &&& rule.tag is Some ==> texts(c.tags@).contains(rule.tag->0@)
    &&& !(scope is Attribute) && rule.attribute is Some ==> texts(c.attributes@).contains(rule.attribute->0@)
    &&& !(scope is Property) && rule.property is Some ==> texts(c.properties@).contains(rule.property->0@)
    &&& given_holds(rule.id, opt_text(rule.id) == Some(c.id@))
    &&& rule.glob is Some || rule.name is Some || rule.class is Some || rule.tag is Some || rule.attribute is Some
        || rule.property is Some || rule.id is Some
}

/// A glob of a rule can not be used.
#[derive(PartialEq, Eq, Structural, Clone, Copy, Debug)]
pub struct InvalidGlob {
    /// Which rule's.
    pub rule: usize,
}

/// What the first `n` rules leave of a candidate, given what their globs answered: the last one that
/// matches decides; without one it is allowed.
pub open spec fn allowed_by(
    rules: Seq<FilterRule>,
    direction: FilterDirection,
    c: FilterCandidate<'_>,
    scope: FilterScope<'_>,
    hits: Seq<Option<bool>>,
    n: nat,
) -> Result<bool, InvalidGlob>
    decreases n,
{
    if n == 0 {
        Ok(true)
    } else {
        match allowed_by(rules, direction, c, scope, hits, (n - 1) as nat) {
            Err(e) => Err(e),
            Ok(before) => {
                let rule = rules[n - 1];
                if !rule_goes(rule, direction) || !rule_applies(rule, scope) {
                    Ok(before)
                } else if rule.glob is Some && hits[n - 1] is None {
                    Err(InvalidGlob { rule: (n - 1) as usize })
                } else if rule_matches(rule, c, scope, hits[n - 1] == Some(true)) {
                    Ok(rule.action == FilterAction::Include)
                } else {
                    Ok(before)
                }
            },
        }
    }
}

/// The answers of the globs of some rules for a path.
pub open spec fn are_hits(rules: Seq<FilterRule>, path: Seq<char>, hits: Seq<Option<bool>>) -> bool {
    &&& hits.len() == rules.len()
    &&& forall|i: int|
        0 <= i < rules.len() && (#[trigger] rules[i]).glob is Some && portable_glob(rules[i].glob->0@, path) ==> hits[i]
            == glob_match(rules[i].glob->0@, path)
}

fn same_as(given: &Option<String>, s: &str) -> (r: bool)
    ensures
        r == given_holds(*given, opt_text(*given) == Some(s@)),
{
    match given {
        Some(x) => same(x, s),
        None => true,
    }
}

fn applies_to(rule: &FilterRule, scope: FilterScope<'_>) -> (r: bool)
    ensures
        r == rule_applies(*rule, scope),
{
    match scope {
        FilterScope::Any => true,
        FilterScope::Instance => rule.property.is_none() && rule.attribute.is_none(),
        FilterScope::Property(name) => rule.attribute.is_none() && same_as(&rule.property, name),
        FilterScope::Attribute(name) => rule.property.is_none() && same_as(&rule.attribute, name),
    }
}

/// Whether every condition of a rule that is given holds, and one is given.
pub fn matches_rule(rule: &FilterRule, c: &FilterCandidate<'_>, scope: FilterScope<'_>, glob_hit: bool) -> (r: bool)
    ensures
        r == rule_matches(*rule, *c, scope, glob_hit),
{
    if rule.glob.is_some() && !glob_hit {
        return false;
    }
    if !same_as(&rule.name, c.name) || !same_as(&rule.class, c.class) || !same_as(&rule.id, c.id) {
        return false;
    }
    match &rule.tag {
        Some(tag) => {
            if !holds_text(c.tags, tag) {
                return false;
            }
        },
        None => {},
    }
    let in_attribute = match scope {
        FilterScope::Attribute(_) => true,
        _ => false,
    };
    match &rule.attribute {
        Some(attribute) => {
            if !in_attribute && !holds_text(c.attributes, attribute) {
                return false;
            }
        },
        None => {},
    }
    let in_property = match scope {
        FilterScope::Property(_) => true,
        _ => false,
    };
    match &rule.property {
        Some(property) => {
            if !in_property && !holds_text(c.properties, property) {
                return false;
            }
        },
        None => {},
    }
    rule.glob.is_some() || rule.name.is_some() || rule.class.is_some() || rule.tag.is_some() || rule.attribute.is_some()
        || rule.property.is_some() || rule.id.is_some()
}

/// Holds a candidate against rules whose globs have answered.
pub fn filter_allows_with_hits(
    rules: &Vec<FilterRule>,
    direction: FilterDirection,
    c: &FilterCandidate<'_>,
    scope: FilterScope<'_>,
    hits: &Vec<Option<bool>>,
) -> (r: Result<bool, InvalidGlob>)
    requires
        hits@.len() == rules@.len(),
    ensures
        r == allowed_by(rules@, direction, *c, scope, hits@, rules@.len()),
{
    let mut allowed = true;
    let mut i: usize = 0;
    while i < rules.len()
        invariant
            i <= rules.len(),
            hits@.len() == rules@.len(),
            allowed_by(rules@, direction, *c, scope, hits@, i as nat) == Ok::<bool, InvalidGlob>(allowed),
        decreases rules.len() - i,
    {
        let rule = &rules[i];
        let goes = rule.direction == FilterDirection::Both || rule.direction == direction;
        if goes && applies_to(rule, scope) {
            let hit = match hits[i] {
                Some(hit) => hit,
                None => {
                    if rule.glob.is_some() {
                        proof {
                            lemma_invalid_stays(rules@, direction, *c, scope, hits@, (i + 1) as nat, rules@.len());
                        }
                        return Err(InvalidGlob { rule: i });
                    }
                    false
                },
            };
            if matches_rule(rule, c, scope, hit) {
                allowed = rule.action == FilterAction::Include;
            }
        }
        i += 1;
    }
    Ok(allowed)
}

proof fn lemma_invalid_stays(
    rules: Seq<FilterRule>,
    direction: FilterDirection,
    c: FilterCandidate<'_>,
    scope: FilterScope<'_>,
    hits: Seq<Option<bool>>,
    k: nat,
    n: nat,
)
    requires
        k <= n,
        allowed_by(rules, direction, c, scope, hits, k) is Err,
    ensures
        allowed_by(rules, direction, c, scope, hits, n) == allowed_by(rules, direction, c, scope, hits, k),
    decreases n,
{
    if k < n {
        lemma_invalid_stays(rules, direction, c, scope, hits, k, (n - 1) as nat);
    }
}

/// Asks the globs of some rules for a path.
pub fn glob_hits(rules: &Vec<FilterRule>, path: &str) -> (r: Vec<Option<bool>>)
    ensures
        are_hits(rules@, path@, r@),
{
    let mut hits: Vec<Option<bool>> = Vec::new();
    let mut i: usize = 0;
    while i < rules.len()
        invariant
            i <= rules.len(),
            hits@.len() == i,
            forall|j: int|
                0 <= j < i && (#[trigger] rules@[j]).glob is Some && portable_glob(rules@[j].glob->0@, path@) ==> hits@[j]
                    == glob_match(rules@[j].glob->0@, path@),
        decreases rules.len() - i,
    {
        let hit = match &rules[i].glob {
            Some(pattern) => match_glob(pattern, path),
            None => None,
        };
        hits.push(hit);
        i += 1;
    }
    hits
}

/// `r` is what rules leave of a candidate, whatever their globs answered.
pub open spec fn is_allowed(
    rules: Seq<FilterRule>,
    direction: FilterDirection,
    c: FilterCandidate<'_>,
    scope: FilterScope<'_>,
    r: Result<bool, InvalidGlob>,
) -> bool {
    exists|hits: Seq<Option<bool>>| #[trigger]
        are_hits(rules, c.path@, hits) && r == allowed_by(rules, direction, c, scope, hits, rules.len())
}

/// Holds a candidate against rules.
pub fn filter_allows_scope(
    rules: &Vec<FilterRule>,
    direction: FilterDirection,
    candidate: &FilterCandidate<'_>,
    scope: FilterScope<'_>,
) -> (r: Result<bool, InvalidGlob>)
    ensures
        is_allowed(rules@, direction, *candidate, scope, r),
{
    let hits = glob_hits(rules, candidate.path);
    filter_allows_with_hits(rules, direction, candidate, scope, &hits)
}

/// Whether rules leave a candidate in.
pub fn filter_allows(rules: &Vec<FilterRule>, direction: FilterDirection, candidate: &FilterCandidate<'_>) -> (r: Result<
    bool,
    InvalidGlob,
>)
    ensures
        is_allowed(rules@, direction, *candidate, FilterScope::Any, r),
{
    filter_allows_scope(rules, direction, candidate, FilterScope::Any)
}

/// Whether rules leave an instance in; rules about properties or attributes do not count.
pub fn filter_allows_instance(rules: &Vec<FilterRule>, direction: FilterDirection, candidate: &FilterCandidate<'_>) -> (r:
    Result<bool, InvalidGlob>)
    ensures
        is_allowed(rules@, direction, *candidate, FilterScope::Instance, r),
{
    filter_allows_scope(rules, direction, candidate, FilterScope::Instance)
}

/// Whether rules leave a property in.
pub fn filter_allows_property(
    rules: &Vec<FilterRule>,
    direction: FilterDirection,
    candidate: &FilterCandidate<'_>,
    property: &str,
) -> (r: Result<bool, InvalidGlob>)
    ensures
        is_allowed(rules@, direction, *candidate, FilterScope::Property(property), r),
{
    filter_allows_scope(rules, direction, candidate, FilterScope::Property(property))
}

/// Whether rules leave an attribute in.
pub fn filter_allows_attribute(
    rules: &Vec<FilterRule>,
    direction: FilterDirection,
    candidate: &FilterCandidate<'_>,
    attribute: &str,
) -> (r: Result<bool, InvalidGlob>)
    ensures
        is_allowed(rules@, direction, *candidate, FilterScope::Attribute(attribute), r),
{
    filter_allows_scope(rules, direction, candidate, FilterScope::Attribute(attribute))
}

/// Whether rules leave a candidate in that changed: both what it is and what it was have to be left in.
pub fn filter_allows_candidate_pair(
    rules: &Vec<FilterRule>,
    direction: FilterDirection,
    current: &FilterCandidate<'_>,
    baseline: Option<&FilterCandidate<'_>>,
    scope: FilterScope<'_>,
) -> (r: Result<bool, InvalidGlob>)
    ensures
        exists|now: Result<bool, InvalidGlob>| #[trigger]
            is_allowed(rules@, direction, *current, scope, now) && if now != Ok::<bool, InvalidGlob>(true) || baseline is None {
                r == now
            } else {
                is_allowed(rules@, direction, *baseline->0, scope, r)
            },
{
    let now = filter_allows_scope(rules, direction, current, scope);
    assert(is_allowed(rules@, direction, *current, scope, now));
    match now {
        Ok(true) => match baseline {
            Some(old_candidate) => filter_allows_scope(rules, direction, old_candidate, scope),
            None => now,
        },
        _ => now,
    }
}

/// A rule that goes, applies and matches decides, where no later one does.
pub proof fn law_last_match_decides(
    rules: Seq<FilterRule>,
    direction: FilterDirection,
    c: FilterCandidate<'_>,
    scope: FilterScope<'_>,
    hits: Seq<Option<bool>>,
    k: int,
    n: nat,
)
    requires
        0 <= k < n <= rules.len(),
        hits.len() == rules.len(),
        rule_goes(rules[k], direction),
        rule_applies(rules[k], scope),
        rule_matches(rules[k], c, scope, hits[k] == Some(true)),
        forall|i: int|
            k < i < n ==> !(rule_goes(#[trigger] rules[i], direction) && rule_applies(rules[i], scope) && rule_matches(
                rules[i],
                c,
                scope,
                hits[i] == Some(true),
            )),
        allowed_by(rules, direction, c, scope, hits, n) is Ok,
    ensures
        allowed_by(rules, direction, c, scope, hits, n) == Ok::<bool, InvalidGlob>(
            rules[k].action == FilterAction::Include,
        ),
    decreases n,
{
    if k < n - 1 {
        assert(!(rule_goes(rules[n - 1], direction) && rule_applies(rules[n - 1], scope) && rule_matches(
            rules[n - 1],
            c,
            scope,
            hits[n - 1] == Some(true),
        )));
        law_last_match_decides(rules, direction, c, scope, hits, k, (n - 1) as nat);
    }
}

/// An answer with the rules behind a place one further.
pub open spec fn one_further(r: Result<bool, InvalidGlob>, at: int) -> Result<bool, InvalidGlob> {
    match r {
        Ok(allowed) => Ok(allowed),
        Err(e) => if e.rule < at {
            Err(e)
        } else {
            Err(InvalidGlob { rule: (e.rule + 1) as usize })
        },
    }
}

proof fn lemma_extra_rule(
    rules: Seq<FilterRule>,
    rule: FilterRule,
    at: int,
    direction: FilterDirection,
    c: FilterCandidate<'_>,
    hits: Seq<Option<bool>>,
    hit: Option<bool>,
    n: nat,
)
    requires
        0 <= at <= rules.len() < usize::MAX,
        hits.len() == rules.len(),
        rule.property is Some || rule.attribute is Some,
        n <= rules.len(),
    ensures
        n <= at ==> allowed_by(rules.insert(at, rule), direction, c, FilterScope::Instance, hits.insert(at, hit), n)
            == allowed_by(rules, direction, c, FilterScope::Instance, hits, n),
        n >= at ==> allowed_by(rules.insert(at, rule), direction, c, FilterScope::Instance, hits.insert(at, hit), n + 1)
            == one_further(allowed_by(rules, direction, c, FilterScope::Instance, hits, n), at),
    decreases n,
{
    let more = rules.insert(at, rule);
    let answers = hits.insert(at, hit);
    if n > 0 {
        lemma_extra_rule(rules, rule, at, direction, c, hits, hit, (n - 1) as nat);
        if n <= at {
            assert(more[n - 1] == rules[n - 1] && answers[n - 1] == hits[n - 1]);
        } else {
            assert(more[n as int] == rules[n - 1] && answers[n as int] == hits[n - 1]);
        }
    }
    if n == at {
        assert(more[at] == rule);
        lemma_errors_in_front(rules, direction, c, hits, n);
    }
}

proof fn lemma_errors_in_front(
    rules: Seq<FilterRule>,
    direction: FilterDirection,
    c: FilterCandidate<'_>,
    hits: Seq<Option<bool>>,
    n: nat,
)
    requires
        n <= rules.len() < usize::MAX,
    ensures
        allowed_by(rules, direction, c, FilterScope::Instance, hits, n) matches Err(e) ==> e.rule < n,
    decreases n,
{
    if n > 0 {
        lemma_errors_in_front(rules, direction, c, hits, (n - 1) as nat);
    }
}

/// A rule about a property or an attribute never decides a whole instance, wherever it stands and even if its
/// glob can not be used: the answers with it are those without it. Where another rule can not be used, the
/// answer names the same one, which may stand one further.
pub proof fn law_field_rules_never_decide_instances(
    rules: Seq<FilterRule>,
    rule: FilterRule,
    at: int,
    direction: FilterDirection,
    c: FilterCandidate<'_>,
    r: Result<bool, InvalidGlob>,
)
    requires
        0 <= at <= rules.len() < usize::MAX,
        rule.property is Some || rule.attribute is Some,
    ensures
        is_allowed(rules.insert(at, rule), direction, c, FilterScope::Instance, r) <==> exists|before: Result<
            bool,
            InvalidGlob,
        >| #[trigger]
            is_allowed(rules, direction, c, FilterScope::Instance, before) && r == one_further(before, at),
{
    let more = rules.insert(at, rule);
    let path = c.path@;
    if is_allowed(more, direction, c, FilterScope::Instance, r) {
        let answers = choose|answers: Seq<Option<bool>>| #[trigger]
            are_hits(more, path, answers) && r == allowed_by(more, direction, c, FilterScope::Instance, answers, more.len());
        let hits = answers.remove(at);
        assert(are_hits(rules, path, hits)) by {
            assert forall|i: int|
                0 <= i < rules.len() && (#[trigger] rules[i]).glob is Some && portable_glob(
                    rules[i].glob->0@,
                    path,
                ) implies hits[i] == glob_match(rules[i].glob->0@, path) by {
                let k = if i < at {
                    i
                } else {
                    i + 1
                };
                assert(more[k] == rules[i] && answers[k] == hits[i]);
            }
        }
        assert(hits.insert(at, answers[at]) =~= answers);
        lemma_extra_rule(rules, rule, at, direction, c, hits, answers[at], rules.len());
        let before = allowed_by(rules, direction, c, FilterScope::Instance, hits, rules.len());
        assert(is_allowed(rules, direction, c, FilterScope::Instance, before));
    }
    if exists|before: Result<bool, InvalidGlob>| #[trigger]
        is_allowed(rules, direction, c, FilterScope::Instance, before) && r == one_further(before, at) {
        let before = choose|before: Result<bool, InvalidGlob>| #[trigger]
            is_allowed(rules, direction, c, FilterScope::Instance, before) && r == one_further(before, at);
        let hits = choose|hits: Seq<Option<bool>>| #[trigger]
            are_hits(rules, path, hits) && before == allowed_by(
                rules,
                direction,
                c,
                FilterScope::Instance,
                hits,
                rules.len(),
            );
        let hit = if rule.glob is Some {
            glob_match(rule.glob->0@, path)
        } else {
            None
        };
        let answers = hits.insert(at, hit);
        assert(are_hits(more, path, answers)) by {
            assert forall|k: int|
                0 <= k < more.len() && (#[trigger] more[k]).glob is Some && portable_glob(
                    more[k].glob->0@,
                    path,
                ) implies answers[k] == glob_match(more[k].glob->0@, path) by {
                if k < at {
                    assert(more[k] == rules[k]);
                } else if k > at {
                    assert(more[k] == rules[k - 1]);
                }
            }
        }
        lemma_extra_rule(rules, rule, at, direction, c, hits, hit, rules.len());
    }
}

/// Without a rule that matches, a candidate is left in.
pub proof fn law_unmatched_candidate_is_allowed(
    rules: Seq<FilterRule>,
    direction: FilterDirection,
    c: FilterCandidate<'_>,
    scope: FilterScope<'_>,
    hits: Seq<Option<bool>>,
    n: nat,
)
    requires
        n <= rules.len(),
        hits.len() == rules.len(),
        forall|i: int|
            0 <= i < n ==> !(rule_goes(#[trigger] rules[i], direction) && rule_applies(rules[i], scope) && rule_matches(
                rules[i],
                c,
                scope,
                hits[i] == Some(true),
            )),
        allowed_by(rules, direction, c, scope, hits, n) is Ok,
    ensures
        allowed_by(rules, direction, c, scope, hits, n) == Ok::<bool, InvalidGlob>(true),
    decreases n,
{
    if n > 0 {
        assert(!(rule_goes(rules[n - 1], direction) && rule_applies(rules[n - 1], scope) && rule_matches(
            rules[n - 1],
            c,
            scope,
            hits[n - 1] == Some(true),
        )));
        law_unmatched_candidate_is_allowed(rules, direction, c, scope, hits, (n - 1) as nat);
    }
}

/// A text as a glob that matches it alone: every special character in brackets.
pub open spec fn escaped_glob(s: Seq<char>) -> Seq<char>
    decreases s.len(),
{
    if s.len() == 0 {
        s
    } else {
        let before = escaped_glob(s.drop_last());
        let c = s.last();
        if c == '?' || c == '*' || c == '[' || c == ']' || c == '{' || c == '}' {
            before.push('[').push(c).push(']')
        } else {
            before.push(c)
        }
    }
}

/// Writes a text as a glob that matches it alone.
pub fn escape_glob(s: &str) -> (r: String)
    ensures
        r@ == escaped_glob(s@),
{
    let chars = chars_of(s);
    let mut out = String::new();
    let mut i: usize = 0;
    assert(s@.take(0) =~= Seq::empty());
    while i < chars.len()
        invariant
            i <= chars.len(),
            chars@ == s@,
            out@ == escaped_glob(s@.take(i as int)),
        decreases chars.len() - i,
    {
        assert(s@.take(i + 1).drop_last() =~= s@.take(i as int));
        let c = chars[i];
        if c == '?' || c == '*' || c == '[' || c == ']' || c == '{' || c == '}' {
            out.push('[');
            out.push(c);
            out.push(']');
        } else {
            out.push(c);
        }
        i += 1;
    }
    assert(s@.take(i as int) =~= s@);
    out
}

} // verus!
