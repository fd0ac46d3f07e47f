//! What filters and rules decide.
use vstd::prelude::*;

use crate::filter::{
    FilterCandidate, FilterDirection, FilterRule, FilterScope, allowed_by, rule_applies, rule_goes,
    rule_matches,
};
use crate::links::opt_text;
use crate::project::SyncRule;
use crate::rules::{
    IgnoreError, RuleNameError, ignore_pattern, ignored_by, last_taking, middleware_class, path_ignored,
    rule_name, rule_takes, sidecar_stem,
};
use crate::text::{ascii_lower, texts};

verus! {

/// A rule for both directions holds in each; a rule for one direction holds in that one.
pub proof fn law_rules_go_their_way(rule: FilterRule)
    ensures
        rule.direction == FilterDirection::Both ==> rule_goes(rule, FilterDirection::StudioToFiles) && rule_goes(
            rule,
            FilterDirection::FilesToStudio,
        ) && rule_goes(rule, FilterDirection::Both),
        rule.direction == FilterDirection::StudioToFiles ==> rule_goes(rule, FilterDirection::StudioToFiles)
            && !rule_goes(rule, FilterDirection::FilesToStudio),
        rule.direction == FilterDirection::FilesToStudio ==> rule_goes(rule, FilterDirection::FilesToStudio)
            && !rule_goes(rule, FilterDirection::StudioToFiles),
{
}

/// A rule without conditions matches nothing. A rule with conditions matches where each holds: a
/// glob that hits, the same name, class or id, a tag, an attribute or a property that is there.
pub proof fn law_rules_match_what_they_say(rule: FilterRule, c: FilterCandidate<'_>, hit: bool)
    ensures
        rule.glob is None && rule.name is None && rule.class is None && rule.tag is None && rule.attribute is None
            && rule.property is None && rule.id is None ==> !rule_matches(rule, c, FilterScope::Any, hit),
        rule.glob is Some && !hit ==> !rule_matches(rule, c, FilterScope::Any, hit),
        rule.name is Some && rule.name->0@ != c.name@ ==> !rule_matches(rule, c, FilterScope::Any, hit),
        rule.class is Some && rule.class->0@ != c.class@ ==> !rule_matches(rule, c, FilterScope::Any, hit),
        rule.id is Some && rule.id->0@ != c.id@ ==> !rule_matches(rule, c, FilterScope::Any, hit),
        rule.tag is Some && !texts(c.tags@).contains(rule.tag->0@) ==> !rule_matches(rule, c, FilterScope::Any, hit),
        rule.attribute is Some && !texts(c.attributes@).contains(rule.attribute->0@) ==> !rule_matches(
            rule,
            c,
            FilterScope::Any,
            hit,
        ),
        rule.property is Some && !texts(c.properties@).contains(rule.property->0@) ==> !rule_matches(
            rule,
            c,
            FilterScope::Any,
            hit,
        ),
        (rule.glob is Some || rule.name is Some || rule.class is Some || rule.tag is Some || rule.attribute is Some
            || rule.property is Some || rule.id is Some) && (rule.glob is Some ==> hit) && (rule.name is Some
            ==> rule.name->0@ == c.name@) && (rule.class is Some ==> rule.class->0@ == c.class@) && (rule.id is Some
            ==> rule.id->0@ == c.id@) && (rule.tag is Some ==> texts(c.tags@).contains(rule.tag->0@)) && (
        rule.attribute is Some ==> texts(c.attributes@).contains(rule.attribute->0@)) && (rule.property is Some
            ==> texts(c.properties@).contains(rule.property->0@)) ==> rule_matches(rule, c, FilterScope::Any, hit),
        forall|s: FilterScope<'_>|
            !(s is Attribute) && !(s is Property) ==> #[trigger] rule_matches(rule, c, s, hit) == rule_matches(
                rule,
                c,
                FilterScope::Any,
                hit,
            ),
{
}

/// A rule on fields decides fields only: of an instance it says nothing, of a property a rule
/// speaks that names it, or names no field.
pub proof fn law_rules_keep_to_their_scope(rule: FilterRule, name: &str, c: FilterCandidate<'_>, hit: bool)
    ensures
        rule_applies(rule, FilterScope::Any),
        rule_applies(rule, FilterScope::Instance) <==> rule.property is None && rule.attribute is None,
        rule.property is None && rule.attribute is None ==> rule_applies(rule, FilterScope::Property(name))
            && rule_applies(rule, FilterScope::Attribute(name)),
        rule.property is Some && rule.property->0@ == name@ && rule.attribute is None ==> rule_applies(
            rule,
            FilterScope::Property(name),
        ),
        rule.property is Some && rule.property->0@ != name@ ==> !rule_applies(rule, FilterScope::Property(name)),
        rule.property is Some ==> !rule_applies(rule, FilterScope::Attribute(name)),
        rule.attribute is Some && rule.attribute->0@ == name@ && rule.property is None ==> rule_applies(
            rule,
            FilterScope::Attribute(name),
        ),
        rule.attribute is Some && rule.attribute->0@ != name@ ==> !rule_applies(rule, FilterScope::Attribute(name)),
        rule.attribute is Some ==> !rule_applies(rule, FilterScope::Property(name)),
        rule.property is Some && rule.glob is None && rule.name is None && rule.class is None && rule.tag is None
            && rule.id is None && rule.attribute is None ==> rule_matches(rule, c, FilterScope::Property(name), hit),
        rule.attribute is Some && rule.glob is None && rule.name is None && rule.class is None && rule.tag is None
            && rule.id is None && rule.property is None ==> rule_matches(rule, c, FilterScope::Attribute(name), hit),
{
}

/// A rule that is asked for its glob and has none that can be read.
pub open spec fn is_unreadable(
    rules: Seq<FilterRule>,
    direction: FilterDirection,
    scope: FilterScope<'_>,
    hits: Seq<Option<bool>>,
    i: int,
) -> bool {
    rule_goes(rules[i], direction) && rule_applies(rules[i], scope) && rules[i].glob is Some && hits[i] is None
}

/// Filtering fails for the first rule whose glob can not be read, and for no other reason.
pub proof fn law_filtering_fails_for_the_first_bad_glob(
    rules: Seq<FilterRule>,
    direction: FilterDirection,
    c: FilterCandidate<'_>,
    scope: FilterScope<'_>,
    hits: Seq<Option<bool>>,
    n: nat,
)
    requires
        n <= rules.len() <= usize::MAX,
        hits.len() == rules.len(),
    ensures
        allowed_by(rules, direction, c, scope, hits, n) is Ok <==> forall|i: int|
            0 <= i < n ==> !#[trigger] is_unreadable(rules, direction, scope, hits, i),
        allowed_by(rules, direction, c, scope, hits, n) matches Err(e) ==> e.rule < n && is_unreadable(
            rules,
            direction,
            scope,
            hits,
            e.rule as int,
        ) && (forall|i: int| 0 <= i < e.rule ==> !#[trigger] is_unreadable(rules, direction, scope, hits, i)),
    decreases n,
{
    if n > 0 {
        law_filtering_fails_for_the_first_bad_glob(rules, direction, c, scope, hits, (n - 1) as nat);
        if allowed_by(rules, direction, c, scope, hits, (n - 1) as nat) is Ok {
            assert(is_unreadable(rules, direction, scope, hits, n - 1) <==> allowed_by(
                rules,
                direction,
                c,
                scope,
                hits,
                n,
            ) is Err);
        }
    }
}

/// A rule for files takes a path that its pattern hits and its exception does not.
pub proof fn law_rules_take_what_they_hit(pattern: bool, exclude: bool)
    ensures
        rule_takes(Some(pattern), None) == Some(pattern),
        rule_takes(Some(pattern), Some(Some(exclude))) == Some(pattern && !exclude),
        rule_takes(None, None) is None,
        rule_takes(Some(true), Some(None)) is None,
{
}

/// No rule is picked where none takes the path. Picking fails for the first rule that can not say.
pub proof fn law_no_rule_where_none_takes(takes: Seq<Option<bool>>, n: nat)
    requires
        n <= takes.len() <= usize::MAX,
    ensures
        last_taking(takes, n) == Ok::<Option<usize>, usize>(None) <==> forall|i: int|
            0 <= i < n ==> #[trigger] takes[i] == Some(false),
        last_taking(takes, n) is Ok <==> forall|i: int| 0 <= i < n ==> (#[trigger] takes[i]) is Some,
        last_taking(takes, n) matches Err(k) ==> k < n && takes[k as int] is None && forall|i: int|
            0 <= i < k ==> (#[trigger] takes[i]) is Some,
        last_taking(takes, n) matches Ok(Some(k)) ==> k < n && takes[k as int] == Some(true) && forall|i: int|
            k < i < n ==> #[trigger] takes[i] == Some(false),
    decreases n,
{
    if n > 0 {
        law_no_rule_where_none_takes(takes, (n - 1) as nat);
    }
}

/// The name of an instance and the suffix of its rule make the name of its file.
pub proof fn law_suffix_completes_the_name(rule: SyncRule, file: Seq<char>, suffix: Seq<char>, name: Seq<char>)
    requires
        opt_text(rule.suffix) == Some(suffix),
    ensures
        name.len() > 0 ==> rule_name(rule, name + suffix) == Ok::<Seq<char>, RuleNameError>(name),
        rule_name(rule, file) == Ok::<Seq<char>, RuleNameError>(name) ==> file == name + suffix && name.len() > 0,
        file.len() == 0 ==> rule_name(rule, file) == Err::<Seq<char>, RuleNameError>(RuleNameError::NoFileName),
        suffix.len() > 0 ==> rule_name(rule, suffix) == Err::<Seq<char>, RuleNameError>(RuleNameError::EmptyName),
{
    let whole = name + suffix;
    assert(whole.skip(whole.len() - suffix.len()) =~= suffix);
    assert(suffix.is_suffix_of(whole));
    assert(whole.take(whole.len() - suffix.len()) =~= name);
    assert(suffix.is_suffix_of(suffix));
    if rule_name(rule, file) == Ok::<Seq<char>, RuleNameError>(name) {
        assert(file =~= name + suffix);
    }
}

/// A line of a list of what is ignored is not empty, and its pattern can be read.
pub open spec fn can_be_read(lines: Seq<Seq<char>>, hits: Seq<Option<bool>>, i: int) -> bool {
    hits[i] is Some && ignore_pattern(lines[i]).len() > 0
}

/// A path that no line hits is not ignored. Lines are read until the first that is empty or can
/// not be read. What lies in a hidden directory is always ignored.
pub proof fn law_paths_are_ignored_by_a_hit(parts: Seq<Seq<char>>, lines: Seq<Seq<char>>, hits: Seq<Option<bool>>, n: nat)
    requires
        n <= lines.len() <= usize::MAX,
        hits.len() == lines.len(),
    ensures
        (forall|i: int| 0 <= i < n ==> #[trigger] hits[i] == Some(false)) && (forall|i: int|
            0 <= i < n ==> ignore_pattern(#[trigger] lines[i]).len() > 0) ==> ignored_by(lines, hits, n) == Ok::<
            bool,
            IgnoreError,
        >(false),
        ignored_by(lines, hits, n) is Ok <==> forall|i: int| 0 <= i < n ==> #[trigger] can_be_read(lines, hits, i),
        ignored_by(lines, hits, n) == Ok::<bool, IgnoreError>(true) ==> exists|k: int|
            #![trigger lines[k]]
            0 <= k < n && hits[k] == Some(true) && !(lines[k].len() > 0 && lines[k][0] == '!'),
        parts.contains(".git"@) || parts.contains(".renium"@) ==> path_ignored(parts, lines, hits) == Ok::<
            bool,
            IgnoreError,
        >(true),
        !parts.contains(".git"@) && !parts.contains(".renium"@) && lines.len() == 0 ==> path_ignored(
            parts,
            lines,
            hits,
        ) == Ok::<bool, IgnoreError>(false),
    decreases n,
{
    reveal_strlit("!");
    if n > 0 {
        law_paths_are_ignored_by_a_hit(parts, lines, hits, (n - 1) as nat);
        let line = lines[n - 1];
        if line.len() > 0 && line[0] == '!' {
            assert("!"@ =~= line.subrange(0, 1));
            assert("!"@.is_prefix_of(line));
        }
        assert(can_be_read(lines, hits, n - 1) <==> (ignored_by(lines, hits, n) is Ok || ignored_by(
            lines,
            hits,
            (n - 1) as nat,
        ) is Err && can_be_read(lines, hits, n - 1)));
    }
}

/// A line is a pattern. An exclamation mark before it makes it bring back what it hits; after a
/// backslash the mark belongs to the pattern.
pub proof fn law_ignore_lines_are_read(raw: Seq<char>)
    ensures
        raw.len() > 0 && raw[0] != '!' && raw[0] != '\\' ==> ignore_pattern(raw) == raw,
        raw.len() > 0 && raw[0] == '!' ==> ignore_pattern(raw) == raw.skip(1),
        raw.len() > 1 && raw[0] == '\\' && raw[1] == '!' ==> ignore_pattern(raw) == raw.skip(2),
        raw.len() > 1 && raw[0] == '\\' && raw[1] != '!' ==> ignore_pattern(raw) == raw,
{
    reveal_strlit("!");
    reveal_strlit("\\!");
    if raw.len() > 0 && raw[0] == '!' {
        assert("!"@ =~= raw.subrange(0, 1));
        assert("!"@.is_prefix_of(raw));
        if "\\!"@.is_prefix_of(raw) {
            assert(raw[0] == "\\!"@[0]);
        }
    }
    if raw.len() > 1 && raw[0] == '\\' && raw[1] == '!' {
        assert("\\!"@ =~= raw.subrange(0, 2));
        assert("\\!"@.is_prefix_of(raw));
    }
    if "\\!"@.is_prefix_of(raw) {
        assert(raw[0] == "\\!"@[0] && raw[1] == "\\!"@[1]);
    }
    if "!"@.is_prefix_of(raw) {
        assert(raw[0] == "!"@[0]);
    }
}

/// A sidecar is named after what it describes.
pub proof fn law_sidecars_are_named_after_their_subject(name: Seq<char>)
    ensures
        sidecar_stem(name) matches Some(stem) ==> stem.is_prefix_of(name) && (ascii_lower(name).skip(
            stem.len() as int,
        ) == ".meta.json"@ || ascii_lower(name).skip(stem.len() as int) == ".meta.jsonc"@),
        sidecar_stem(name) is Some <==> ".meta.json"@.is_suffix_of(ascii_lower(name)) || ".meta.jsonc"@.is_suffix_of(
            ascii_lower(name),
        ),
{
    reveal_strlit(".meta.json");
    reveal_strlit(".meta.jsonc");
    let lower = ascii_lower(name);
    assert(lower.len() == name.len());
    if ".meta.jsonc"@.is_suffix_of(lower) {
        assert(lower.skip(name.len() - 11) =~= ".meta.jsonc"@);
    } else if ".meta.json"@.is_suffix_of(lower) {
        assert(lower.skip(name.len() - 10) =~= ".meta.json"@);
    }
}

/// The classes of the scripts that a rule can make.
pub proof fn law_scripts_have_their_classes()
    ensures
        middleware_class("modulescript"@) == Some("ModuleScript"@),
        middleware_class("serverscript"@) == Some("Script"@),
        middleware_class("pluginscript"@) == Some("Script"@),
        middleware_class("clientscript"@) == Some("LocalScript"@),
        middleware_class("ignore"@) is None,
{
    reveal_strlit("modulescript");
    reveal_strlit("serverscript");
    reveal_strlit("pluginscript");
    reveal_strlit("clientscript");
    reveal_strlit("ignore");
    assert("modulescript"@[0] == 'm' && "serverscript"@[0] == 's' && "pluginscript"@[0] == 'p');
    assert("clientscript"@[0] == 'c' && "ignore"@[0] == 'i');
}

} // verus!
