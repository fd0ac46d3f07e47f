//! Rules for files: which become what, which are ignored, and which describe others.
use vstd::prelude::*;

use crate::filter::{glob_match, match_glob, portable_glob};
use crate::links::opt_text;
use crate::naming::ScriptExtensionPolicy;
use crate::paths::{extension_of, last_name, named_parts, split_extension, stem_of, FilePath, PathParts};
use crate::project::SyncRule;
use crate::text::{
    ascii_lower, chars_of, ends_with, holds_text, joined, lemma_texts_push, same, starts_with, subtexts, text_from, texts,
    to_ascii_lower, trim, trimmed,
};

verus! {

broadcast use vstd::seq_lib::group_seq_properties;

/// A text without dashes and underscores.
pub open spec fn undashed(s: Seq<char>) -> Seq<char>
    decreases s.len(),
{
    if s.len() == 0 {
        s
    } else if s.last() == '-' || s.last() == '_' {
        undashed(s.drop_last())
    } else {
        undashed(s.drop_last()).push(s.last())
    }
}

fn without_dashes(s: &str) -> (r: String)
    ensures
        r@ == undashed(s@),
{
    let chars = chars_of(s);
    let mut out = String::new();
    let mut i: usize = 0;
    assert(s@.take(0) =~= Seq::empty());
    while i < chars.len()
        invariant
            i <= chars.len(),
            chars@ == s@,
            out@ == undashed(s@.take(i as int)),
        decreases chars.len() - i,
    {
        assert(s@.take(i + 1).drop_last() =~= s@.take(i as int));
        if chars[i] != '-' && chars[i] != '_' {
            out.push(chars[i]);
        }
        i += 1;
    }
    assert(s@.take(i as int) =~= s@);
    out
}

/// The one name of a way to turn files into instances.
pub open spec fn middleware_name(value: Seq<char>) -> Seq<char> {
    let lower = ascii_lower(trimmed(value));
    let plain = undashed(lower);
    if plain == "modulescript"@ || plain == "module"@ {
        "modulescript"@
    } else if plain == "serverscript"@ || plain == "server"@ || plain == "script"@ {
        "serverscript"@
    } else if plain == "clientscript"@ || plain == "client"@ || plain == "localscript"@ {
        "clientscript"@
    } else if plain == "pluginscript"@ || plain == "plugin"@ {
        "pluginscript"@
    } else if plain == "modeljson"@ {
        "model-json"@
    } else if plain == "nestedproject"@ || plain == "project"@ {
        "nested-project"@
    } else {
        lower
    }
}

/// The one name of a way to turn files into instances.
pub fn normalize_sync_middleware(value: &str) -> (r: String)
    ensures
        r@ == middleware_name(value@),
{
    let t = trim(value);
    let lower = to_ascii_lower(&t);
    let plain = without_dashes(&lower);
    if same(&plain, "modulescript") || same(&plain, "module") {
        "modulescript".to_owned()
    } else if same(&plain, "serverscript") || same(&plain, "server") || same(&plain, "script") {
        "serverscript".to_owned()
    } else if same(&plain, "clientscript") || same(&plain, "client") || same(&plain, "localscript") {
        "clientscript".to_owned()
    } else if same(&plain, "pluginscript") || same(&plain, "plugin") {
        "pluginscript".to_owned()
    } else if same(&plain, "modeljson") {
        "model-json".to_owned()
    } else if same(&plain, "nestedproject") || same(&plain, "project") {
        "nested-project".to_owned()
    } else {
        lower
    }
}

/// A way to turn files into instances that is known, given the formats that adapters know.
pub open spec fn middleware_known(value: Seq<char>, formats: Seq<Seq<char>>) -> bool {
    let name = middleware_name(value);
    name == "ignore"@ || name == "modulescript"@ || name == "serverscript"@ || name == "clientscript"@ || name
        == "pluginscript"@ || formats.contains(name)
}

/// Whether a way to turn files into instances is known.
pub fn validate_sync_middleware(value: &str, formats: &Vec<String>) -> (r: bool)
    ensures
        r == middleware_known(value@, texts(formats@)),
{
    let name = normalize_sync_middleware(value);
    same(&name, "ignore") || same(&name, "modulescript") || same(&name, "serverscript") || same(&name, "clientscript") || same(
        &name,
        "pluginscript",
    ) || holds_text(formats, &name)
}

/// The class of the scripts that a way to turn files into instances makes.
pub open spec fn middleware_class(name: Seq<char>) -> Option<Seq<char>> {
    if name == "modulescript"@ {
        Some("ModuleScript"@)
    } else if name == "serverscript"@ || name == "pluginscript"@ {
        Some("Script"@)
    } else if name == "clientscript"@ {
        Some("LocalScript"@)
    } else {
        None
    }
}

pub fn script_class_of(name: &str) -> (r: Option<&'static str>)
    ensures
        r is Some <==> middleware_class(name@) is Some,
        r is Some ==> Some(r->0@) == middleware_class(name@),
{
    if same(name, "modulescript") {
        Some("ModuleScript")
    } else if same(name, "serverscript") || same(name, "pluginscript") {
        Some("Script")
    } else if same(name, "clientscript") {
        Some("LocalScript")
    } else {
        None
    }
}

/// `hit` may be what a glob answers for a path.
pub open spec fn is_hit(pattern: Seq<char>, path: Seq<char>, hit: Option<bool>) -> bool {
    portable_glob(pattern, path) ==> hit == glob_match(pattern, path)
}

/// Whether a rule takes a path, given what its globs answered; nothing where one can not be used.
pub open spec fn rule_takes(pattern: Option<bool>, exclude: Option<Option<bool>>) -> Option<bool> {
    match pattern {
        None => None,
        Some(false) => Some(false),
        Some(true) => match exclude {
            None => Some(true),
            Some(None) => None,
            Some(Some(hit)) => Some(!hit),
        },
    }
}

/// Whether a rule takes a path, given what its globs answered.
pub fn rule_takes_with_hits(pattern: Option<bool>, exclude: Option<Option<bool>>) -> (r: Option<bool>)
    ensures
        r == rule_takes(pattern, exclude),
{
    match pattern {
        None => None,
        Some(false) => Some(false),
        Some(true) => match exclude {
            None => Some(true),
            Some(None) => None,
            Some(Some(hit)) => Some(!hit),
        },
    }
}

/// `r` is whether a rule takes a path, where its globs answered `p` and `e`.
pub open spec fn taken_with(rule: SyncRule, path: Seq<char>, p: Option<bool>, e: Option<bool>, r: Option<bool>) -> bool {
    &&& is_hit(rule.pattern@, path, p)
    &&& rule.exclude is Some ==> is_hit(rule.exclude->0@, path, e)
    &&& r == rule_takes(
        p,
        if rule.exclude is Some {
            Some(e)
        } else {
            None
        },
    )
}

/// `r` is whether a rule takes a path, whatever its globs answered.
pub open spec fn is_taken(rule: SyncRule, path: Seq<char>, r: Option<bool>) -> bool {
    exists|p: Option<bool>, e: Option<bool>| #[trigger] taken_with(rule, path, p, e, r)
}

/// Whether a rule takes a path with slashes between its components; nothing where a glob of it can not
/// be used.
pub fn sync_rule_matches(rule: &SyncRule, path: &str) -> (r: Option<bool>)
    ensures
        is_taken(*rule, path@, r),
{
    let p = match_glob(&rule.pattern, path);
    match &rule.exclude {
        Some(exclude) => {
            let e = match_glob(exclude, path);
            let r = rule_takes_with_hits(p, Some(e));
            assert(taken_with(*rule, path@, p, e, r));
            r
        },
        None => {
            let r = rule_takes_with_hits(p, None);
            assert(taken_with(*rule, path@, p, None, r));
            r
        },
    }
}

/// The last of the first `n` rules that takes a path, or the first that can not be used.
pub open spec fn last_taking(takes: Seq<Option<bool>>, n: nat) -> Result<Option<usize>, usize>
    decreases n,
{
    if n == 0 {
        Ok(None)
    } else {
        match last_taking(takes, (n - 1) as nat) {
            Err(e) => Err(e),
            Ok(before) => match takes[n - 1] {
                None => Err((n - 1) as usize),
                Some(true) => Ok(Some((n - 1) as usize)),
                Some(false) => Ok(before),
            },
        }
    }
}

proof fn lemma_unusable_stays(takes: Seq<Option<bool>>, k: nat, n: nat)
    requires
        k <= n,
        last_taking(takes, k) is Err,
    ensures
        last_taking(takes, n) == last_taking(takes, k),
    decreases n,
{
    if k < n {
        lemma_unusable_stays(takes, k, (n - 1) as nat);
    }
}

/// Picks the rule for a file: the last one that takes it.
pub fn select_sync_rule(takes: &Vec<Option<bool>>) -> (r: Result<Option<usize>, usize>)
    ensures
        r == last_taking(takes@, takes@.len()),
{
    let mut found: Option<usize> = None;
    let mut i: usize = 0;
    while i < takes.len()
        invariant
            i <= takes.len(),
            last_taking(takes@, i as nat) == Ok::<Option<usize>, usize>(found),
        decreases takes.len() - i,
    {
        match takes[i] {
            None => {
                proof {
                    lemma_unusable_stays(takes@, (i + 1) as nat, takes@.len());
                }
                return Err(i);
            },
            Some(true) => {
                found = Some(i);
            },
            Some(false) => {},
        }
        i += 1;
    }
    Ok(found)
}

/// What each rule says to a path.
pub open spec fn are_taken(rules: Seq<SyncRule>, path: Seq<char>, takes: Seq<Option<bool>>) -> bool {
    &&& takes.len() == rules.len()
    &&& forall|i: int| 0 <= i < rules.len() ==> is_taken(rules[i], path, #[trigger] takes[i])
}

/// Asks each rule about a path.
pub fn rule_answers(rules: &Vec<SyncRule>, path: &str) -> (r: Vec<Option<bool>>)
    ensures
        are_taken(rules@, path@, r@),
{
    let mut out: Vec<Option<bool>> = Vec::new();
    let mut i: usize = 0;
    while i < rules.len()
        invariant
            i <= rules.len(),
            out@.len() == i,
            forall|j: int| 0 <= j < i ==> is_taken(rules@[j], path@, #[trigger] out@[j]),
        decreases rules.len() - i,
    {
        let answer = sync_rule_matches(&rules[i], path);
        out.push(answer);
        i += 1;
    }
    out
}

/// The rule for a file, or which rule can not be used.
pub fn sync_rule_for(rules: &Vec<SyncRule>, path: &str) -> (r: Result<Option<usize>, usize>)
    ensures
        exists|takes: Seq<Option<bool>>| #[trigger]
            are_taken(rules@, path@, takes) && r == last_taking(takes, rules@.len()),
{
    let takes = rule_answers(rules, path);
    select_sync_rule(&takes)
}

/// A later rule that takes a path wins over those before it.
pub proof fn law_last_rule_wins(takes: Seq<Option<bool>>, k: int, n: nat)
    requires
        0 <= k < n <= takes.len(),
        takes[k] == Some(true),
        forall|i: int| k < i < n ==> #[trigger] takes[i] == Some(false),
        last_taking(takes, n) is Ok,
    ensures
        last_taking(takes, n) == Ok::<Option<usize>, usize>(Some(k as usize)),
    decreases n,
{
    if k < n - 1 {
        assert(takes[n - 1] == Some(false));
        law_last_rule_wins(takes, k, (n - 1) as nat);
    }
}

/// Why a file gives no instance a name.
#[derive(PartialEq, Eq, Structural, Clone, Copy, Debug)]
pub enum RuleNameError {
    NoFileName,
    WrongSuffix,
    EmptyName,
}

/// The name of the instance that a rule makes of a file.
pub open spec fn rule_name(rule: SyncRule, file: Seq<char>) -> Result<Seq<char>, RuleNameError> {
    if file.len() == 0 {
        Err(RuleNameError::NoFileName)
    } else {
        match opt_text(rule.suffix) {
            Some(suffix) => if !suffix.is_suffix_of(file) {
                Err(RuleNameError::WrongSuffix)
            } else if suffix.len() == file.len() {
                Err(RuleNameError::EmptyName)
            } else {
                Ok(file.take(file.len() - suffix.len()))
            },
            None => Ok(stem_of(file)),
        }
    }
}

pub open spec fn text_result(r: Result<String, RuleNameError>) -> Result<Seq<char>, RuleNameError> {
    match r {
        Ok(s) => Ok(s@),
        Err(e) => Err(e),
    }
}

/// The name of the instance that a rule makes of a file.
pub fn sync_rule_instance_name(rule: &SyncRule, path: &FilePath) -> (r: Result<String, RuleNameError>)
    ensures
        text_result(r) == rule_name(*rule, last_name(path@)),
{
    let file = path.file_name();
    if file.as_str().is_empty() {
        return Err(RuleNameError::NoFileName);
    }
    match &rule.suffix {
        Some(suffix) => {
            if !ends_with(&file, suffix) {
                return Err(RuleNameError::WrongSuffix);
            }
            let chars = chars_of(&file);
            let tail = chars_of(suffix);
            if tail.len() == chars.len() {
                return Err(RuleNameError::EmptyName);
            }
            assert(suffix@.len() <= file@.len());
            assert(file@.subrange(0, file@.len() - suffix@.len()) =~= file@.take(file@.len() - suffix@.len()));
            Ok(text_from(&chars, 0, chars.len() - tail.len()))
        },
        None => {
            let (stem, _) = split_extension(&file);
            Ok(stem)
        },
    }
}

/// A pattern without the mark that turns it round, and what was marked.
pub open spec fn ignore_pattern(raw: Seq<char>) -> Seq<char> {
    if "\\!"@.is_prefix_of(raw) {
        raw.skip(2)
    } else if "!"@.is_prefix_of(raw) {
        raw.skip(1)
    } else {
        raw
    }
}

/// A pattern that brings back what others ignored.
pub open spec fn is_negated(raw: Seq<char>) -> bool {
    "!"@.is_prefix_of(raw)
}

/// The pattern of an ignore line; nothing where it is empty.
pub fn ignore_glob_pattern(raw: &str) -> (r: Option<String>)
    ensures
        r is None <==> ignore_pattern(raw@).len() == 0,
        r is Some ==> r->0@ == ignore_pattern(raw@),
{
    proof {
        reveal_strlit("\\!");
        reveal_strlit("!");
    }
    let chars = chars_of(raw);
    let n = chars.len();
    let skip: usize = if starts_with(raw, "\\!") {
        2
    } else if starts_with(raw, "!") {
        1
    } else {
        0
    };
    assert(skip <= n);
    assert(raw@.subrange(skip as int, n as int) =~= ignore_pattern(raw@));
    if skip == n {
        return None;
    }
    Some(text_from(&chars, skip, n))
}

/// Why it can not be said whether a path is ignored.
#[derive(PartialEq, Eq, Structural, Clone, Copy, Debug)]
pub enum IgnoreError {
    Empty(usize),
    Invalid(usize),
}

/// Whether the first `n` lines ignore a path, given what their globs answered: the last that matches
/// decides.
pub open spec fn ignored_by(lines: Seq<Seq<char>>, hits: Seq<Option<bool>>, n: nat) -> Result<bool, IgnoreError>
    decreases n,
{
    if n == 0 {
        Ok(false)
    } else {
        match ignored_by(lines, hits, (n - 1) as nat) {
            Err(e) => Err(e),
            Ok(before) => if ignore_pattern(lines[n - 1]).len() == 0 {
                Err(IgnoreError::Empty((n - 1) as usize))
            } else {
                match hits[n - 1] {
                    None => Err(IgnoreError::Invalid((n - 1) as usize)),
                    Some(true) => Ok(!is_negated(lines[n - 1])),
                    Some(false) => Ok(before),
                }
            },
        }
    }
}

proof fn lemma_ignore_error_stays(lines: Seq<Seq<char>>, hits: Seq<Option<bool>>, k: nat, n: nat)
    requires
        k <= n,
        ignored_by(lines, hits, k) is Err,
    ensures
        ignored_by(lines, hits, n) == ignored_by(lines, hits, k),
    decreases n,
{
    if k < n {
        lemma_ignore_error_stays(lines, hits, k, (n - 1) as nat);
    }
}

/// A path inside a directory that is never content.
pub open spec fn in_hidden_directory(parts: Seq<Seq<char>>) -> bool {
    parts.contains(".git"@) || parts.contains(".renium"@)
}

/// Whether a path is ignored, given what the globs answered.
pub open spec fn path_ignored(parts: Seq<Seq<char>>, lines: Seq<Seq<char>>, hits: Seq<Option<bool>>) -> Result<
    bool,
    IgnoreError,
> {
    if in_hidden_directory(parts) {
        Ok(true)
    } else {
        ignored_by(lines, hits, lines.len())
    }
}

/// Whether a path is ignored, given what the globs answered.
pub fn path_is_ignored_with_hits(path: &FilePath, lines: &Vec<String>, hits: &Vec<Option<bool>>) -> (r: Result<
    bool,
    IgnoreError,
>)
    requires
        hits@.len() == lines@.len(),
    ensures
        r == path_ignored(path@.parts, texts(lines@), hits@),
{
    if holds_text(&path.parts, ".git") || holds_text(&path.parts, ".renium") {
        return Ok(true);
    }
    let ghost all = texts(lines@);
    assert(all.len() == lines@.len());
    let mut ignored = false;
    let mut i: usize = 0;
    while i < lines.len()
        invariant
            i <= lines.len(),
            hits@.len() == lines@.len(),
            all == texts(lines@),
            all.len() == lines@.len(),
            !in_hidden_directory(path@.parts),
            ignored_by(all, hits@, i as nat) == Ok::<bool, IgnoreError>(ignored),
        decreases lines.len() - i,
    {
        assert(all[i as int] == lines@[i as int]@);
        if ignore_glob_pattern(&lines[i]).is_none() {
            proof {
                lemma_ignore_error_stays(all, hits@, (i + 1) as nat, all.len());
            }
            return Err(IgnoreError::Empty(i));
        }
        match hits[i] {
            None => {
                proof {
                    lemma_ignore_error_stays(all, hits@, (i + 1) as nat, all.len());
                }
                return Err(IgnoreError::Invalid(i));
            },
            Some(true) => {
                ignored = !starts_with(&lines[i], "!");
            },
            Some(false) => {},
        }
        i += 1;
    }
    Ok(ignored)
}

/// The answers of ignore lines for a path.
pub open spec fn are_ignore_hits(lines: Seq<Seq<char>>, path: Seq<char>, hits: Seq<Option<bool>>) -> bool {
    &&& hits.len() == lines.len()
    &&& forall|i: int| 0 <= i < lines.len() ==> is_hit(ignore_pattern(lines[i]), path, #[trigger] hits[i])
}

/// Whether a path, seen from the project, is ignored.
pub fn path_is_ignored(path: &FilePath, lines: &Vec<String>) -> (r: Result<bool, IgnoreError>)
    ensures
        exists|hits: Seq<Option<bool>>| #[trigger]
            are_ignore_hits(texts(lines@), crate::paths::slash_text(path@), hits) && r == path_ignored(
                path@.parts,
                texts(lines@),
                hits,
            ),
{
    let text = path.to_slash();
    let mut hits: Vec<Option<bool>> = Vec::new();
    let mut i: usize = 0;
    while i < lines.len()
        invariant
            i <= lines.len(),
            text@ == crate::paths::slash_text(path@),
            hits@.len() == i,
            forall|j: int| 0 <= j < i ==> is_hit(ignore_pattern(texts(lines@)[j]), text@, #[trigger] hits@[j]),
        decreases lines.len() - i,
    {
        assert(texts(lines@)[i as int] == lines@[i as int]@);
        let hit = match ignore_glob_pattern(&lines[i]) {
            Some(pattern) => match_glob(&pattern, &text),
            None => {
                let none = "";
                proof {
                    reveal_strlit("");
                    assert(none@ =~= ignore_pattern(lines@[i as int]@));
                }
                match_glob(none, &text)
            },
        };
        hits.push(hit);
        i += 1;
    }
    assert(are_ignore_hits(texts(lines@), text@, hits@));
    path_is_ignored_with_hits(path, lines, &hits)
}

/// A later line that matches wins over those before it.
pub proof fn law_last_ignore_line_wins(lines: Seq<Seq<char>>, hits: Seq<Option<bool>>, k: int, n: nat)
    requires
        0 <= k < n <= lines.len(),
        hits.len() == lines.len(),
        hits[k] == Some(true),
        forall|i: int| k < i < n ==> #[trigger] hits[i] == Some(false),
        ignored_by(lines, hits, n) is Ok,
    ensures
        ignored_by(lines, hits, n) == Ok::<bool, IgnoreError>(!is_negated(lines[k])),
    decreases n,
{
    if k < n - 1 {
        assert(hits[n - 1] == Some(false));
        law_last_ignore_line_wins(lines, hits, k, (n - 1) as nat);
    }
}

/// The name of a file that describes another, without what marks it as such.
pub open spec fn sidecar_stem(name: Seq<char>) -> Option<Seq<char>> {
    if ".meta.jsonc"@.is_suffix_of(ascii_lower(name)) {
        Some(name.take(name.len() - 11))
    } else if ".meta.json"@.is_suffix_of(ascii_lower(name)) {
        Some(name.take(name.len() - 10))
    } else {
        None
    }
}

/// The name of a file that describes another, without what marks it as such.
pub fn metadata_sidecar_stem(name: &str) -> (r: Option<String>)
    ensures
        opt_text(r) == sidecar_stem(name@),
{
    proof {
        reveal_strlit(".meta.jsonc");
        reveal_strlit(".meta.json");
    }
    let lower = to_ascii_lower(name);
    let chars = chars_of(name);
    let n = chars.len();
    assert(lower@.len() == name@.len());
    if ends_with(&lower, ".meta.jsonc") {
        assert(n >= 11);
        assert(name@.subrange(0, n - 11) =~= name@.take(n - 11));
        Some(text_from(&chars, 0, n - 11))
    } else if ends_with(&lower, ".meta.json") {
        assert(n >= 10);
        assert(name@.subrange(0, n - 10) =~= name@.take(n - 10));
        Some(text_from(&chars, 0, n - 10))
    } else {
        None
    }
}

/// Whether a file describes another.
pub fn is_metadata_sidecar(path: &FilePath) -> (r: bool)
    ensures
        r == (sidecar_stem(last_name(path@)) is Some),
{
    let name = path.file_name();
    metadata_sidecar_stem(&name).is_some()
}

/// Why a file describes no instance.
#[derive(PartialEq, Eq, Structural, Clone, Copy, Debug)]
pub enum SidecarError {
    Name,
    NoInstance,
}

/// The target that a file describes, given the name that a script file of its stem would have.
pub open spec fn sidecar_target(path: PathParts, leaf: Option<Seq<char>>) -> Result<Seq<Seq<char>>, SidecarError> {
    match sidecar_stem(last_name(path)) {
        None => Err(SidecarError::Name),
        Some(stem) => {
            let above = path.parts.drop_last();
            let names = named_parts(above, above.len());
            let target = if stem == "init"@ {
                names
            } else {
                names.push(
                    match leaf {
                        Some(name) => name,
                        None => stem,
                    },
                )
            };
            if target.len() == 0 {
                Err(SidecarError::NoInstance)
            } else {
                Ok(target)
            }
        },
    }
}

/// The target that a file describes, given the name that a script file of its stem would have.
pub fn metadata_sidecar_target(path: &FilePath, leaf: &Option<String>) -> (r: Result<Vec<String>, SidecarError>)
    ensures
        match sidecar_target(path@, opt_text(*leaf)) {
            Ok(target) => r is Ok && texts(r->Ok_0@) == target,
            Err(e) => r is Err && r->Err_0 == e,
        },
{
    let name = path.file_name();
    let stem = match metadata_sidecar_stem(&name) {
        Some(stem) => stem,
        None => {
            return Err(SidecarError::Name);
        },
    };
    proof {
        reveal_strlit(".meta.jsonc");
        reveal_strlit(".meta.json");
        if path@.parts.len() == 0 {
            assert(last_name(path@).len() == 0);
            assert(sidecar_stem(last_name(path@)) is None);
        }
    }
    let above = match path.parent() {
        Some(above) => above,
        None => FilePath::relative(Vec::new()),
    };
    let mut target = crate::paths::path_segments(&above);
    if !same(&stem, "init") {
        let last = match leaf {
            Some(name) => name.clone(),
            None => stem,
        };
        proof {
            lemma_texts_push(target@, last);
        }
        target.push(last);
    }
    assert(texts(target@).len() == target@.len());
    if target.len() == 0 {
        return Err(SidecarError::NoInstance);
    }
    Ok(target)
}

/// The extension of the scripts that adapters write.
pub open spec fn script_extension(policy: ScriptExtensionPolicy) -> Seq<char> {
    match policy {
        ScriptExtensionPolicy::Lua => "lua"@,
        _ => "luau"@,
    }
}

/// The file of the script that an adapter writes for a target.
pub open spec fn adapter_script_path(
    stage: PathParts,
    target: Seq<Seq<char>>,
    module_suffix: Seq<char>,
    policy: ScriptExtensionPolicy,
) -> PathParts {
    let leaf = if target.len() == 0 {
        "Adapter"@
    } else {
        target.last()
    };
    let above = if target.len() == 0 {
        target
    } else {
        target.drop_last()
    };
    PathParts {
        rooted: stage.rooted,
        parts: (stage.parts + above).push(leaf + module_suffix + "."@ + script_extension(policy)),
    }
}

/// The file of the script that an adapter writes for a target.
pub fn adapter_target_script_path(
    stage: &FilePath,
    target: &Vec<String>,
    module_suffix: &str,
    policy: ScriptExtensionPolicy,
) -> (r: FilePath)
    ensures
        r@ == adapter_script_path(stage@, texts(target@), module_suffix@, policy),
{
    let extension = match policy {
        ScriptExtensionPolicy::Lua => "lua",
        _ => "luau",
    };
    let n = target.len();
    let ghost names = texts(target@);
    assert(names.len() == n);
    let leaf = if n == 0 {
        "Adapter".to_owned()
    } else {
        assert(names.last() == target@[n - 1]@);
        target[n - 1].clone()
    };
    let above = if n == 0 {
        let none: Vec<String> = Vec::new();
        assert(texts(none@) =~= names);
        none
    } else {
        assert(names.subrange(0, n - 1) =~= names.drop_last());
        subtexts(target, 0, n - 1)
    };
    let a = joined(&leaf, module_suffix);
    let b = joined(&a, ".");
    let file = joined(&b, extension);
    let parent = stage.join_parts(&above, 0);
    assert(texts(above@).subrange(0, above@.len() as int) =~= texts(above@));
    parent.child(&file)
}

/// The file that a source is copied to, when the target has no extension of its own: a script keeps
/// what follows its name, another file its extension.
pub open spec fn destination_of(target: PathParts, source_name: Seq<char>, script: Option<int>) -> PathParts {
    let name = last_name(target);
    let above = if name.len() == 0 {
        target.parts
    } else {
        target.parts.drop_last()
    };
    if extension_of(name) is Some {
        target
    } else {
        match script {
            Some(named) => PathParts { parts: above.push(name + source_name.skip(named)), ..target },
            None => match extension_of(source_name) {
                Some(extension) => if extension.len() == 0 || name.len() == 0 {
                    target
                } else {
                    PathParts { parts: above.push(name + "."@ + extension), ..target }
                },
                None => target,
            },
        }
    }
}

pub open spec fn opt_len(v: Option<usize>) -> Option<int> {
    match v {
        Some(n) => Some(n as int),
        None => None,
    }
}

/// The file that a source is copied to. `script` is the length of the name part of a script's file name.
pub fn file_target_destination(target: &FilePath, source_name: &str, script: Option<usize>) -> (r: FilePath)
    requires
        script is Some ==> script->0 <= source_name@.len(),
    ensures
        r@ == destination_of(target@, source_name@, opt_len(script)),
{
    let name = target.file_name();
    let (_, own) = split_extension(&name);
    if own.is_some() {
        return target.copy();
    }
    let above = if name.as_str().is_empty() {
        target.copy()
    } else {
        match target.parent() {
            Some(above) => above,
            None => target.copy(),
        }
    };
    match script {
        Some(named) => {
            let chars = chars_of(source_name);
            let tail = text_from(&chars, named, chars.len());
            assert(source_name@.subrange(named as int, source_name@.len() as int) =~= source_name@.skip(named as int));
            let file = joined(&name, &tail);
            above.child(&file)
        },
        None => {
            let (_, extension) = split_extension(source_name);
            match extension {
                Some(extension) => {
                    if extension.as_str().is_empty() || name.as_str().is_empty() {
                        return target.copy();
                    }
                    let a = joined(&name, ".");
                    let file = joined(&a, &extension);
                    above.child(&file)
                },
                None => target.copy(),
            }
        },
    }
}

} // verus!
