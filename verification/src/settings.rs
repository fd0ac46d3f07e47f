//! The settings that configuration files may hold, and their merge.
use vstd::prelude::*;

use crate::json::{
    elements, entries, entry_before, find_key, get, is_entry, lemma_entry, lemma_entry_before_step, lemma_entry_of,
    merge_json, merged, or_null, put, Json, JsonModel, Member, Number, NumberModel,
};
use crate::link_apply::value_of;
use crate::references::lemma_element;
use crate::table::{key_views, Table};
use crate::text::{clone_texts, joined, lemma_texts_push, less, lemma_text_less_total, lemma_text_less_transitive, same, text_less, texts, texts_start_with};
use crate::wally_sync::PathKey;

verus! {

broadcast use vstd::seq_lib::group_seq_properties;

/// What a setting has to be.
#[derive(PartialEq, Eq, Structural, Clone, Copy, Debug)]
pub enum SettingKind {
    /// An object with settings of its own.
    Section,
    /// The integer 1.
    One,
    /// An array of strings.
    Texts,
    /// An integer.
    Integer,
    /// A number.
    Number,
    /// A boolean.
    Boolean,
    /// One of direct, snapshot.
    ImportMode,
    /// One of throughput, balanced, smooth.
    PerformanceMode,
    /// One of off, error, warn, info, debug, trace.
    LogLevel,
    /// One of auto, always, never.
    Color,
    /// One of text, json, pretty.
    OutputMode,
    /// One of studio, editor, none.
    SyncPriority,
    /// One of always, initial, never.
    DisplayPrompts,
    /// One of prompt, filesystem, studio.
    ConflictResolution,
    /// One of ask, always, never.
    AskAlwaysNever,
    /// One of tracked, configuredPaths.
    StageMode,
    /// One of onStart, onError, silent.
    OutputBehavior,
    /// A string.
    Text,
    /// There is no such setting.
    Unknown,
}

/// What the setting under a dotted key has to be.
pub open spec fn setting_kind(path: Seq<char>) -> SettingKind {
    if path == "gitSync"@ || path == "wallySync"@ || path == "liveSync"@ || path == "link"@ {
        SettingKind::Section
    } else if path == "schemaVersion"@ {
        SettingKind::One
    } else if path == "services"@ || path == "gitSync.stagePaths"@ {
        SettingKind::Texts
    } else if path == "sourceWorkers"@ || path == "instanceWorkers"@ || path == "importWorkers"@ || path == "chunkSize"@ || path == "autoSyncDebounceMs"@ || path == "studioLiveSyncPollMs"@ || path == "liveSync.changesThreshold"@ || path == "liveSync.diffLinesLimit"@ {
        SettingKind::Integer
    } else if path == "bridgeWaitSeconds"@ || path == "progressHeartbeatSeconds"@ || path == "gitSync.timeoutSeconds"@ {
        SettingKind::Number
    } else if path == "yes"@ || path == "backtrace"@ || path == "verifyEditorPushSources"@ || path == "adaptiveThrottle"@ || path == "autoSyncOnSave"@ || path == "editorLiveSyncEnabled"@ || path == "studioLiveSyncEnabled"@ || path == "liveSync.overridePackages"@ || path == "runImport"@ || path == "modifiedDefaultBypass"@ || path == "gitSync.autoFetch"@ || path == "gitSync.includeUntracked"@ || path == "gitSync.confirmBeforePush"@ || path == "gitSync.requireCleanWorktreeBeforePull"@ || path == "wallySync.runInstall"@ || path == "link.offline"@ || path == "link.autoApplyOnManifestChange"@ {
        SettingKind::Boolean
    } else if path == "importMode"@ {
        SettingKind::ImportMode
    } else if path == "performanceMode"@ {
        SettingKind::PerformanceMode
    } else if path == "logLevel"@ {
        SettingKind::LogLevel
    } else if path == "color"@ {
        SettingKind::Color
    } else if path == "outputMode"@ {
        SettingKind::OutputMode
    } else if path == "liveSync.initialSyncPriority"@ {
        SettingKind::SyncPriority
    } else if path == "liveSync.displayPrompts"@ {
        SettingKind::DisplayPrompts
    } else if path == "liveSync.conflictResolution"@ {
        SettingKind::ConflictResolution
    } else if path == "gitSync.pullFromStudioBeforePush"@ || path == "gitSync.applyPulledChangesToStudio"@ || path == "wallySync.applyToStudio"@ || path == "link.applyToStudio"@ {
        SettingKind::AskAlwaysNever
    } else if path == "gitSync.stageMode"@ {
        SettingKind::StageMode
    } else if path == "gitSync.outputBehavior"@ {
        SettingKind::OutputBehavior
    } else if path == "projectRoot"@ || path == "snapshotDir"@ || path == "cliPath"@ || path == "bridgePorts"@ || path == "place"@ || path == "daemon"@ || path == "gitSync.gitPath"@ || path == "gitSync.remote"@ || path == "gitSync.branch"@ || path == "gitSync.commitMessageTemplate"@ || path == "wallySync.wallyPath"@ || path == "wallySync.packagesDir"@ || path == "wallySync.targetService"@ || path == "wallySync.targetName"@ || path == "wallySync.serverPackagesDir"@ || path == "wallySync.serverTargetService"@ || path == "wallySync.serverTargetName"@ || path == "wallySync.devPackagesDir"@ || path == "wallySync.devTargetService"@ || path == "wallySync.devTargetName"@ || path == "wallySync.realms"@ || path == "link.manifest"@ || path == "link.folder"@ || path == "link.cacheDir"@ || path == "link.gitPath"@ {
        SettingKind::Text
    } else {
        SettingKind::Unknown
    }
}

/// What the setting under a dotted key has to be.
pub fn setting_kind_of(path: &str) -> (r: SettingKind)
    ensures
        r == setting_kind(path@),
{
    if same(path, "gitSync") || same(path, "wallySync") || same(path, "liveSync") || same(path, "link") {
        SettingKind::Section
    } else if same(path, "schemaVersion") {
        SettingKind::One
    } else if same(path, "services") || same(path, "gitSync.stagePaths") {
        SettingKind::Texts
    } else if same(path, "sourceWorkers") || same(path, "instanceWorkers") || same(path, "importWorkers") || same(path, "chunkSize") || same(path, "autoSyncDebounceMs") || same(path, "studioLiveSyncPollMs") || same(path, "liveSync.changesThreshold") || same(path, "liveSync.diffLinesLimit") {
        SettingKind::Integer
    } else if same(path, "bridgeWaitSeconds") || same(path, "progressHeartbeatSeconds") || same(path, "gitSync.timeoutSeconds") {
        SettingKind::Number
    } else if same(path, "yes") || same(path, "backtrace") || same(path, "verifyEditorPushSources") || same(path, "adaptiveThrottle") || same(path, "autoSyncOnSave") || same(path, "editorLiveSyncEnabled") || same(path, "studioLiveSyncEnabled") || same(path, "liveSync.overridePackages") || same(path, "runImport") || same(path, "modifiedDefaultBypass") || same(path, "gitSync.autoFetch") || same(path, "gitSync.includeUntracked") || same(path, "gitSync.confirmBeforePush") || same(path, "gitSync.requireCleanWorktreeBeforePull") || same(path, "wallySync.runInstall") || same(path, "link.offline") || same(path, "link.autoApplyOnManifestChange") {
        SettingKind::Boolean
    } else if same(path, "importMode") {
        SettingKind::ImportMode
    } else if same(path, "performanceMode") {
        SettingKind::PerformanceMode
    } else if same(path, "logLevel") {
        SettingKind::LogLevel
    } else if same(path, "color") {
        SettingKind::Color
    } else if same(path, "outputMode") {
        SettingKind::OutputMode
    } else if same(path, "liveSync.initialSyncPriority") {
        SettingKind::SyncPriority
    } else if same(path, "liveSync.displayPrompts") {
        SettingKind::DisplayPrompts
    } else if same(path, "liveSync.conflictResolution") {
        SettingKind::ConflictResolution
    } else if same(path, "gitSync.pullFromStudioBeforePush") || same(path, "gitSync.applyPulledChangesToStudio") || same(path, "wallySync.applyToStudio") || same(path, "link.applyToStudio") {
        SettingKind::AskAlwaysNever
    } else if same(path, "gitSync.stageMode") {
        SettingKind::StageMode
    } else if same(path, "gitSync.outputBehavior") {
        SettingKind::OutputBehavior
    } else if same(path, "projectRoot") || same(path, "snapshotDir") || same(path, "cliPath") || same(path, "bridgePorts") || same(path, "place") || same(path, "daemon") || same(path, "gitSync.gitPath") || same(path, "gitSync.remote") || same(path, "gitSync.branch") || same(path, "gitSync.commitMessageTemplate") || same(path, "wallySync.wallyPath") || same(path, "wallySync.packagesDir") || same(path, "wallySync.targetService") || same(path, "wallySync.targetName") || same(path, "wallySync.serverPackagesDir") || same(path, "wallySync.serverTargetService") || same(path, "wallySync.serverTargetName") || same(path, "wallySync.devPackagesDir") || same(path, "wallySync.devTargetService") || same(path, "wallySync.devTargetName") || same(path, "wallySync.realms") || same(path, "link.manifest") || same(path, "link.folder") || same(path, "link.cacheDir") || same(path, "link.gitPath") {
        SettingKind::Text
    } else {
        SettingKind::Unknown
    }
}

/// A text is one of the choices of a setting.
pub open spec fn is_choice(kind: SettingKind, s: Seq<char>) -> bool {
    match kind {
        SettingKind::ImportMode => s == "direct"@ || s == "snapshot"@,
        SettingKind::PerformanceMode => s == "throughput"@ || s == "balanced"@ || s == "smooth"@,
        SettingKind::LogLevel => s == "off"@ || s == "error"@ || s == "warn"@ || s == "info"@ || s == "debug"@ || s == "trace"@,
        SettingKind::Color => s == "auto"@ || s == "always"@ || s == "never"@,
        SettingKind::OutputMode => s == "text"@ || s == "json"@ || s == "pretty"@,
        SettingKind::SyncPriority => s == "studio"@ || s == "editor"@ || s == "none"@,
        SettingKind::DisplayPrompts => s == "always"@ || s == "initial"@ || s == "never"@,
        SettingKind::ConflictResolution => s == "prompt"@ || s == "filesystem"@ || s == "studio"@,
        SettingKind::AskAlwaysNever => s == "ask"@ || s == "always"@ || s == "never"@,
        SettingKind::StageMode => s == "tracked"@ || s == "configuredPaths"@,
        SettingKind::OutputBehavior => s == "onStart"@ || s == "onError"@ || s == "silent"@,
        _ => false,
    }
}

fn is_choice_of(kind: SettingKind, s: &str) -> (r: bool)
    ensures
        r == is_choice(kind, s@),
{
    match kind {
        SettingKind::ImportMode => same(s, "direct") || same(s, "snapshot"),
        SettingKind::PerformanceMode => same(s, "throughput") || same(s, "balanced") || same(s, "smooth"),
        SettingKind::LogLevel => same(s, "off") || same(s, "error") || same(s, "warn") || same(s, "info") || same(s, "debug") || same(s, "trace"),
        SettingKind::Color => same(s, "auto") || same(s, "always") || same(s, "never"),
        SettingKind::OutputMode => same(s, "text") || same(s, "json") || same(s, "pretty"),
        SettingKind::SyncPriority => same(s, "studio") || same(s, "editor") || same(s, "none"),
        SettingKind::DisplayPrompts => same(s, "always") || same(s, "initial") || same(s, "never"),
        SettingKind::ConflictResolution => same(s, "prompt") || same(s, "filesystem") || same(s, "studio"),
        SettingKind::AskAlwaysNever => same(s, "ask") || same(s, "always") || same(s, "never"),
        SettingKind::StageMode => same(s, "tracked") || same(s, "configuredPaths"),
        SettingKind::OutputBehavior => same(s, "onStart") || same(s, "onError") || same(s, "silent"),
        _ => false,
    }
}

/// A value is what a setting has to be. Sections are looked into elsewhere.
pub open spec fn setting_allows(kind: SettingKind, v: JsonModel) -> bool {
    match kind {
        SettingKind::Section => false,
        SettingKind::Unknown => false,
        SettingKind::One => v == JsonModel::Number(NumberModel::Unsigned(1)),
        SettingKind::Texts => v matches JsonModel::Array(items) && (forall|i: int|
            0 <= i < items.len() ==> (#[trigger] items[i]) is Text),
        SettingKind::Integer => v matches JsonModel::Number(n) && !(n is Other),
        SettingKind::Number => v is Number,
        SettingKind::Boolean => v is Bool,
        SettingKind::Text => v is Text,
        _ => v matches JsonModel::Text(s) && is_choice(kind, s),
    }
}

fn allows_setting(kind: SettingKind, v: &Json) -> (r: bool)
    ensures
        r == setting_allows(kind, v@),
{
    match kind {
        SettingKind::Section => false,
        SettingKind::Unknown => false,
        SettingKind::One => match v {
            Json::Number(Number::Unsigned(n)) => *n == 1,
            _ => false,
        },
        SettingKind::Texts => match v {
            Json::Array(items) => {
                let ghost all = elements(items@);
                assert(v@ == JsonModel::Array(all));
                let mut i: usize = 0;
                while i < items.len()
                    invariant
                        i <= items.len(),
                        all == elements(items@),
                        v@ == JsonModel::Array(all),
                        kind == SettingKind::Texts,
                        forall|j: int| 0 <= j < i ==> (#[trigger] all[j]) is Text,
                    decreases items.len() - i,
                {
                    proof {
                        lemma_element(items@, i as int);
                    }
                    match &items[i] {
                        Json::Text(_) => {},
                        _ => {
                            assert(!(all[i as int] is Text));
                            return false;
                        },
                    }
                    i += 1;
                }
                true
            },
            _ => false,
        },
        SettingKind::Integer => match v {
            Json::Number(Number::Unsigned(_)) => true,
            Json::Number(Number::Negative(_)) => true,
            _ => false,
        },
        SettingKind::Number => match v {
            Json::Number(_) => true,
            _ => false,
        },
        SettingKind::Boolean => match v {
            Json::Bool(_) => true,
            _ => false,
        },
        SettingKind::Text => match v {
            Json::Text(_) => true,
            _ => false,
        },
        _ => match v {
            Json::Text(s) => is_choice_of(kind, s),
            _ => false,
        },
    }
}

/// Why a configuration is refused: which key, and what is wrong with it.
#[derive(Debug)]
pub enum SettingError {
    NotAnObject(String),
    WrongKind(String),
    Unknown(String),
}

pub enum SettingErrorModel {
    NotAnObject(Seq<char>),
    WrongKind(Seq<char>),
    Unknown(Seq<char>),
}

impl View for SettingError {
    type V = SettingErrorModel;

    open spec fn view(&self) -> SettingErrorModel {
        match self {
            SettingError::NotAnObject(s) => SettingErrorModel::NotAnObject(s@),
            SettingError::WrongKind(s) => SettingErrorModel::WrongKind(s@),
            SettingError::Unknown(s) => SettingErrorModel::Unknown(s@),
        }
    }
}

/// A key below a prefix, with a dot between them.
pub open spec fn dotted(prefix: Seq<char>, key: Seq<char>) -> Seq<char> {
    if prefix.len() == 0 {
        key
    } else {
        prefix + "."@ + key
    }
}

fn dotted_key(prefix: &str, key: &str) -> (r: String)
    ensures
        r@ == dotted(prefix@, key@),
{
    if prefix.is_empty() {
        key.to_owned()
    } else {
        let a = joined(prefix, ".");
        joined(&a, key)
    }
}

/// Every setting in an object is known and what it has to be.
pub open spec fn settings_valid(prefix: Seq<char>, v: JsonModel) -> bool
    decreases v,
{
    match v {
        JsonModel::Object(o) => forall|k: Seq<char>| #[trigger]
            o.dom().contains(k) ==> if setting_kind(dotted(prefix, k)) == SettingKind::Section {
                settings_valid(dotted(prefix, k), o[k])
            } else {
                setting_allows(setting_kind(dotted(prefix, k)), o[k])
            },
        _ => false,
    }
}

/// The setting under a key is known and what it has to be.
pub open spec fn key_valid(prefix: Seq<char>, o: Map<Seq<char>, JsonModel>, k: Seq<char>) -> bool {
    if setting_kind(dotted(prefix, k)) == SettingKind::Section {
        settings_valid(dotted(prefix, k), o[k])
    } else {
        setting_allows(setting_kind(dotted(prefix, k)), o[k])
    }
}

/// `k` is the first key, by its characters, whose setting is not valid.
pub open spec fn first_invalid(prefix: Seq<char>, o: Map<Seq<char>, JsonModel>, k: Seq<char>) -> bool {
    &&& o.dom().contains(k)
    &&& !key_valid(prefix, o, k)
    &&& forall|other: Seq<char>| #[trigger]
        o.dom().contains(other) && !key_valid(prefix, o, other) ==> !text_less(other, k)
}

/// `e` is what is wrong with a configuration: what is wrong with the first key that is.
pub open spec fn is_setting_error(prefix: Seq<char>, v: JsonModel, e: SettingErrorModel) -> bool
    decreases v,
{
    match v {
        JsonModel::Object(o) => exists|k: Seq<char>| #[trigger]
            o.dom().contains(k) && first_invalid(prefix, o, k) && match setting_kind(dotted(prefix, k)) {
                SettingKind::Section => is_setting_error(dotted(prefix, k), o[k], e),
                SettingKind::Unknown => e == SettingErrorModel::Unknown(dotted(prefix, k)),
                _ => e == SettingErrorModel::WrongKind(dotted(prefix, k)),
            },
        _ => e == SettingErrorModel::NotAnObject(prefix),
    }
}

/// What is wrong with the setting under a key.
spec fn is_key_error(prefix: Seq<char>, o: Map<Seq<char>, JsonModel>, k: Seq<char>, e: SettingErrorModel) -> bool {
    match setting_kind(dotted(prefix, k)) {
        SettingKind::Section => is_setting_error(dotted(prefix, k), o[k], e),
        SettingKind::Unknown => e == SettingErrorModel::Unknown(dotted(prefix, k)),
        _ => e == SettingErrorModel::WrongKind(dotted(prefix, k)),
    }
}

fn check_settings(prefix: &str, value: &Json) -> (r: Result<(), SettingError>)
    ensures
        match r {
            Ok(()) => settings_valid(prefix@, value@),
            Err(e) => !settings_valid(prefix@, value@) && is_setting_error(prefix@, value@, e@),
        },
    decreases value, 1nat,
{
    match value {
        Json::Object(m) => {
            assert(value@ == JsonModel::Object(entries(m@)));
            check_members(prefix, m)
        },
        _ => Err(SettingError::NotAnObject(prefix.to_owned())),
    }
}

fn check_members(prefix: &str, m: &Vec<Member>) -> (r: Result<(), SettingError>)
    ensures
        match r {
            Ok(()) => settings_valid(prefix@, JsonModel::Object(entries(m@))),
            Err(e) => !settings_valid(prefix@, JsonModel::Object(entries(m@))) && is_setting_error(
                prefix@,
                JsonModel::Object(entries(m@)),
                e@,
            ),
        },
    decreases m, 0nat,
{
    let ghost o = entries(m@);
    let mut worst: Option<(String, SettingError)> = None;
    let mut i: usize = 0;
    while i < m.len()
        invariant
            i <= m.len(),
            o == entries(m@),
            match worst {
                None => forall|k: Seq<char>| #[trigger] entry_before(m@, k, i as int) ==> key_valid(prefix@, o, k),
                Some((key, e)) => {
                    &&& o.dom().contains(key@)
                    &&& !key_valid(prefix@, o, key@)
                    &&& is_key_error(prefix@, o, key@, e@)
                    &&& forall|k: Seq<char>| #[trigger]
                        entry_before(m@, k, i as int) && !key_valid(prefix@, o, k) ==> !text_less(k, key@)
                },
            },
        decreases m.len() - i,
    {
        let ghost key = m@[i as int].key@;
        let found = find_key(m, &m[i].key);
        let counts = match found {
            Some(at) => at == i,
            None => false,
        };
        proof {
            lemma_entry_before_step(m@, i as int);
            if !counts && is_entry(m@, key, i as int) {
                lemma_entry(m@, key, i as int);
                let at = found->0;
                assert(m@[at as int].key@ == key && m@[i as int].key@ == key);
            }
            assert(counts == is_entry(m@, key, i as int));
        }
        if counts {
            proof {
                lemma_entry(m@, key, i as int);
            }
            let path = dotted_key(prefix, &m[i].key);
            let kind = setting_kind_of(&path);
            let problem: Option<SettingError> = match kind {
                SettingKind::Section => match check_settings(&path, &m[i].value) {
                    Ok(()) => None,
                    Err(e) => Some(e),
                },
                SettingKind::Unknown => Some(SettingError::Unknown(path)),
                _ => if allows_setting(kind, &m[i].value) {
                    None
                } else {
                    Some(SettingError::WrongKind(path))
                },
            };
            assert((problem is None) == key_valid(prefix@, o, key));
            assert(problem is Some ==> is_key_error(prefix@, o, key, problem->0@));
            match problem {
                None => {},
                Some(e) => {
                    let first = match &worst {
                        None => true,
                        Some((other, _)) => less(&m[i].key, other),
                    };
                    proof {
                        if worst is Some {
                            let pair = worst->0;
                            let other = pair.0@;
                            lemma_text_less_total(key, other);
                            assert forall|k: Seq<char>| #[trigger]
                                entry_before(m@, k, i as int) && !key_valid(prefix@, o, k) && text_less(key, other)
                                implies !text_less(k, key) by {
                                if text_less(k, key) {
                                    lemma_text_less_transitive(k, key, other);
                                }
                            }
                        }
                        lemma_text_less_total(key, key);
                    }
                    if first {
                        worst = Some((m[i].key.clone(), e));
                    }
                },
            }
        }
        i += 1;
    }
    assert forall|k: Seq<char>| #[trigger] entry_before(m@, k, m@.len() as int) == o.dom().contains(k) by {
        if o.dom().contains(k) {
            let j = lemma_entry_of(m@, k);
            assert(0 <= j < m@.len() && is_entry(m@, k, j));
        }
        if entry_before(m@, k, m@.len() as int) {
            let j = choose|j: int| 0 <= j < m@.len() && #[trigger] is_entry(m@, k, j);
            lemma_entry(m@, k, j);
        }
    }
    match worst {
        None => {
            assert forall|k: Seq<char>| #[trigger] o.dom().contains(k) implies key_valid(prefix@, o, k) by {
                assert(entry_before(m@, k, m@.len() as int));
            }
            Ok(())
        },
        Some((key, e)) => {
            assert(first_invalid(prefix@, o, key@)) by {
                assert forall|k: Seq<char>| #[trigger]
                    o.dom().contains(k) && !key_valid(prefix@, o, k) implies !text_less(k, key@) by {
                    assert(entry_before(m@, k, m@.len() as int));
                }
            }
            proof {
                let v = JsonModel::Object(o);
                assert(o.dom().contains(key@) && is_key_error(prefix@, o, key@, e@));
                assert(is_setting_error(prefix@, v, e@)) by {
                    reveal_with_fuel(is_setting_error, 2);
                    assert(v->Object_0 == o);
                    assert(v->Object_0.dom().contains(key@));
                }
            }
            assert(!settings_valid(prefix@, JsonModel::Object(o))) by {
                assert(o.dom().contains(key@));
            }
            Err(e)
        },
    }
}

/// Checks a merged configuration: every setting is known and what it has to be.
pub fn validate_merged_config(value: &Json) -> (r: Result<(), SettingError>)
    ensures
        match r {
            Ok(()) => settings_valid(Seq::empty(), value@),
            Err(e) => !settings_valid(Seq::empty(), value@) && is_setting_error(Seq::empty(), value@, e@),
        },
{
    let none = String::new();
    check_settings(&none, value)
}

/// The configuration that holds before any file: the version of its form.
pub open spec fn base_config() -> JsonModel {
    JsonModel::Object(Map::empty().insert("schemaVersion"@, JsonModel::Number(NumberModel::Unsigned(1))))
}

/// The configuration that holds before any file.
pub fn base_config_value() -> (r: Json)
    ensures
        r@ == base_config(),
{
    let mut m: Vec<Member> = Vec::new();
    put(&mut m, "schemaVersion".to_owned(), Json::Number(Number::Unsigned(1)));
    let r = Json::Object(m);
    assert(r@ == JsonModel::Object(entries(m@)));
    r
}

/// The models of some values.
pub open spec fn layers_of(v: Seq<Json>) -> Seq<JsonModel> {
    Seq::new(v.len(), |i: int| v[i]@)
}

/// The first `n` layers laid over the base, each over those before it.
pub open spec fn layered(layers: Seq<JsonModel>, n: nat) -> JsonModel
    decreases n,
{
    if n == 0 {
        base_config()
    } else {
        merged(layered(layers, (n - 1) as nat), layers[n - 1])
    }
}

/// Lays the configurations of the scopes over each other, from the widest to the narrowest, and checks
/// the result.
pub fn merge_config_layers(layers: &Vec<Json>) -> (r: Result<Json, SettingError>)
    ensures
        match r {
            Ok(value) => value@ == layered(layers_of(layers@), layers@.len()) && settings_valid(Seq::empty(), value@),
            Err(e) => !settings_valid(Seq::empty(), layered(layers_of(layers@), layers@.len())) && is_setting_error(
                Seq::empty(),
                layered(layers_of(layers@), layers@.len()),
                e@,
            ),
        },
{
    let mut value = base_config_value();
    let mut i: usize = 0;
    while i < layers.len()
        invariant
            i <= layers.len(),
            value@ == layered(layers_of(layers@), i as nat),
        decreases layers.len() - i,
    {
        merge_json(&mut value, &layers[i]);
        i += 1;
    }
    match validate_merged_config(&value) {
        Ok(()) => Ok(value),
        Err(e) => Err(e),
    }
}

/// What the last layer says of a setting, a plain value, is what holds, whatever the layers before it say.
pub proof fn law_narrowest_scope_wins(layers: Seq<JsonModel>, path: Seq<Seq<char>>)
    requires
        layers.len() > 0,
        crate::json::value_at(layers.last(), path) is Some,
        crate::json::value_at(layers.last(), path)->0 !is Null,
        crate::json::value_at(layers.last(), path)->0 !is Object,
    ensures
        crate::json::value_at(layered(layers, layers.len()), path) == crate::json::value_at(layers.last(), path),
{
    crate::json::law_overlay_wins(layered(layers, (layers.len() - 1) as nat), layers.last(), path);
}

/// A value that is no object stands at a path inside another.
pub open spec fn leaf_at(v: JsonModel, path: Seq<Seq<char>>) -> bool {
    match crate::json::value_at(v, path) {
        Some(JsonModel::Object(_)) => false,
        Some(_) => true,
        None => false,
    }
}

/// Where the setting at a path comes from, after `overlay` from `label` was laid over `base`. What is
/// replaced comes from `label`, setting by setting; what is taken out comes from nowhere; and what the
/// overlay does not name comes from where it came before.
pub open spec fn origin_after(
    base: JsonModel,
    overlay: JsonModel,
    label: Seq<char>,
    before: Option<Seq<char>>,
    path: Seq<Seq<char>>,
) -> Option<Seq<char>>
    decreases path.len(),
{
    match (base, overlay) {
        (JsonModel::Object(b), JsonModel::Object(o)) => if path.len() == 0 || !o.dom().contains(path[0]) {
            before
        } else if o[path[0]] == JsonModel::Null {
            None
        } else {
            origin_after(or_null(b, path[0]), o[path[0]], label, before, path.drop_first())
        },
        _ => if leaf_at(overlay, path) {
            Some(label)
        } else {
            None
        },
    }
}

/// The origins of the settings below a prefix after an overlay; the whole configuration has none of its
/// own.
pub open spec fn origins_after(
    base: JsonModel,
    overlay: JsonModel,
    prefix: Seq<Seq<char>>,
    label: Seq<char>,
    before: Map<Seq<Seq<char>>, Seq<char>>,
    path: Seq<Seq<char>>,
) -> Option<Seq<char>> {
    if !prefix.is_prefix_of(path) {
        value_of(before, path)
    } else {
        match origin_after(base, overlay, label, value_of(before, path), path.skip(prefix.len() as int)) {
            Some(s) => if path.len() == 0 && !(base is Object && overlay is Object) {
                None
            } else {
                Some(s)
            },
            None => None,
        }
    }
}

/// Forgets where the settings at and below a path come from.
pub fn remove_origin_subtree(origins: &mut Table<PathKey, String>, prefix: &Vec<String>)
    ensures
        forall|path: Seq<Seq<char>>| #[trigger]
            value_of(final(origins)@, path) == if texts(prefix@).is_prefix_of(path) {
                None
            } else {
                value_of(old(origins)@, path)
            },
{
    let ghost start = origins@;
    let ghost top = texts(prefix@);
    let keys = origins.keys();
    let ghost all = key_views(keys@);
    let mut i: usize = 0;
    while i < keys.len()
        invariant
            i <= keys.len(),
            top == texts(prefix@),
            all == key_views(keys@),
            forall|k: Seq<Seq<char>>| #[trigger] all.contains(k) <==> start.dom().contains(k),
            forall|path: Seq<Seq<char>>| #[trigger]
                value_of(origins@, path) == if all.take(i as int).contains(path) && top.is_prefix_of(path) {
                    None
                } else {
                    value_of(start, path)
                },
        decreases keys.len() - i,
    {
        let ghost id = all[i as int];
        let ghost done = all.take(i as int);
        let ghost next = all.take(i + 1);
        let ghost before = origins@;
        proof {
            assert(next =~= done.push(id));
            assert(next[i as int] == id);
            assert(id == keys@[i as int]@);
            assert forall|x: Seq<Seq<char>>| next.contains(x) == (done.contains(x) || x == id) by {
                if done.contains(x) {
                    let at = choose|at: int| 0 <= at < done.len() && done[at] == x;
                    assert(next[at] == x);
                }
                if next.contains(x) && x != id {
                    let at = choose|at: int| 0 <= at < next.len() && next[at] == x;
                    assert(done[at] == x);
                }
            }
        }
        if texts_start_with(&keys[i].segments, prefix) {
            origins.take(&keys[i]);
            assert(origins@ == before.remove(id));
        }
        assert forall|path: Seq<Seq<char>>| #[trigger]
            value_of(origins@, path) == if next.contains(path) && top.is_prefix_of(path) {
                None
            } else {
                value_of(start, path)
            } by {
            assert(value_of(before, path) == if done.contains(path) && top.is_prefix_of(path) {
                None
            } else {
                value_of(start, path)
            });
        }
        i += 1;
    }
    assert(all.take(i as int) =~= all);
    assert forall|path: Seq<Seq<char>>| #[trigger]
        value_of(origins@, path) == if top.is_prefix_of(path) {
            None
        } else {
            value_of(start, path)
        } by {
        assert(all.contains(path) == start.dom().contains(path));
    }
}

fn below(prefix: &Vec<String>, key: &str) -> (r: Vec<String>)
    ensures
        texts(r@) == texts(prefix@).push(key@),
{
    let mut path = clone_texts(prefix);
    let name = key.to_owned();
    proof {
        lemma_texts_push(path@, name);
    }
    path.push(name);
    path
}

proof fn lemma_prefix_push(prefix: Seq<Seq<char>>, key: Seq<char>, path: Seq<Seq<char>>)
    ensures
        prefix.push(key).is_prefix_of(path) == (prefix.is_prefix_of(path) && path.len() > prefix.len()
            && path[prefix.len() as int] == key),
        prefix.push(key).is_prefix_of(path) ==> path.skip(prefix.len() as int).len() > 0 && path.skip(
            prefix.len() as int,
        )[0] == key && path.skip(prefix.len() as int).drop_first() == path.skip(prefix.len() as int + 1),
{
    let more = prefix.push(key);
    if more.is_prefix_of(path) {
        assert(path.subrange(0, prefix.len() as int) =~= prefix);
        assert(path[prefix.len() as int] == more[prefix.len() as int]);
        assert(path.skip(prefix.len() as int).drop_first() =~= path.skip(prefix.len() as int + 1));
    }
    if prefix.is_prefix_of(path) && path.len() > prefix.len() && path[prefix.len() as int] == key {
        assert(path.subrange(0, more.len() as int) =~= more);
    }
}

/// Notes that every setting in a value comes from `label`.
fn record_origin_leaves(origins: &mut Table<PathKey, String>, value: &Json, prefix: &Vec<String>, label: &str)
    ensures
        forall|path: Seq<Seq<char>>| #[trigger]
            value_of(final(origins)@, path) == if texts(prefix@).is_prefix_of(path) && path.len() > 0 && leaf_at(
                value@,
                path.skip(prefix@.len() as int),
            ) {
                Some(label@)
            } else {
                value_of(old(origins)@, path)
            },
    decreases value,
{
    let ghost start = origins@;
    let ghost top = texts(prefix@);
    assert(top.len() == prefix@.len());
    match value {
        Json::Object(m) => {
            let ghost o = entries(m@);
            assert(value@ == JsonModel::Object(o));
            let mut i: usize = 0;
            while i < m.len()
                invariant
                    i <= m.len(),
                    *value == Json::Object(*m),
                    o == entries(m@),
                    value@ == JsonModel::Object(o),
                    top == texts(prefix@),
                    top.len() == prefix@.len(),
                    forall|path: Seq<Seq<char>>| #[trigger]
                        value_of(origins@, path) == if top.is_prefix_of(path) && path.len() > top.len() && entry_before(
                            m@,
                            path[top.len() as int],
                            i as int,
                        ) && leaf_at(value@, path.skip(top.len() as int)) {
                            Some(label@)
                        } else {
                            value_of(start, path)
                        },
                decreases m.len() - i,
            {
                let ghost key = m@[i as int].key@;
                let ghost before = origins@;
                let found = find_key(m, &m[i].key);
                let counts = match found {
                    Some(at) => at == i,
                    None => false,
                };
                proof {
                    lemma_entry_before_step(m@, i as int);
                    if !counts && is_entry(m@, key, i as int) {
                        lemma_entry(m@, key, i as int);
                        let at = found->0;
                        assert(m@[at as int].key@ == key && m@[i as int].key@ == key);
                    }
                    assert(counts == is_entry(m@, key, i as int));
                }
                if counts {
                    proof {
                        lemma_entry(m@, key, i as int);
                    }
                    let path_below = below(prefix, &m[i].key);
                    assert(path_below@.len() == texts(path_below@).len());
                    record_origin_leaves(origins, &m[i].value, &path_below, label);
                    assert forall|path: Seq<Seq<char>>| #[trigger]
                        value_of(origins@, path) == if top.is_prefix_of(path) && path.len() > top.len() && entry_before(
                            m@,
                            path[top.len() as int],
                            i + 1,
                        ) && leaf_at(value@, path.skip(top.len() as int)) {
                            Some(label@)
                        } else {
                            value_of(start, path)
                        } by {
                        lemma_prefix_push(top, key, path);
                        assert(value_of(before, path) == if top.is_prefix_of(path) && path.len() > top.len()
                            && entry_before(m@, path[top.len() as int], i as int) && leaf_at(
                            value@,
                            path.skip(top.len() as int),
                        ) {
                            Some(label@)
                        } else {
                            value_of(start, path)
                        });
                        if top.push(key).is_prefix_of(path) {
                            let rest = path.skip(top.len() as int);
                            assert(crate::json::value_at(value@, rest) == crate::json::value_at(
                                o[key],
                                rest.drop_first(),
                            ));
                        }
                    }
                }
                i += 1;
            }
            assert forall|path: Seq<Seq<char>>| #[trigger]
                value_of(origins@, path) == if top.is_prefix_of(path) && path.len() > 0 && leaf_at(
                    value@,
                    path.skip(top.len() as int),
                ) {
                    Some(label@)
                } else {
                    value_of(start, path)
                } by {
                if top.is_prefix_of(path) && leaf_at(value@, path.skip(top.len() as int)) {
                    let rest = path.skip(top.len() as int);
                    assert(rest.len() > 0);
                    assert(rest[0] == path[top.len() as int]);
                    assert(o.dom().contains(rest[0]));
                    let j = lemma_entry_of(m@, rest[0]);
                    assert(0 <= j < m@.len() && is_entry(m@, rest[0], j));
                    assert(entry_before(m@, rest[0], m@.len() as int));
                }
            }
        },
        _ => {
            if prefix.len() > 0 {
                let key = PathKey { segments: clone_texts(prefix) };
                origins.put(key, label.to_owned());
            }
            assert forall|path: Seq<Seq<char>>| #[trigger]
                value_of(origins@, path) == if top.is_prefix_of(path) && path.len() > 0 && leaf_at(
                    value@,
                    path.skip(top.len() as int),
                ) {
                    Some(label@)
                } else {
                    value_of(start, path)
                } by {
                if top.is_prefix_of(path) {
                    let rest = path.skip(top.len() as int);
                    if rest.len() == 0 {
                        assert(path =~= top);
                        assert(crate::json::value_at(value@, rest) == Some(value@));
                    } else {
                        assert(path != top);
                        assert(crate::json::value_at(value@, rest) is None);
                    }
                } else {
                    assert(top.subrange(0, top.len() as int) =~= top);
                }
            }
        },
    }
}

/// Follows where settings come from when an overlay is laid over a base.
pub fn update_origins(
    origins: &mut Table<PathKey, String>,
    base: &Json,
    overlay: &Json,
    prefix: &Vec<String>,
    label: &str,
)
    ensures
        forall|path: Seq<Seq<char>>| #[trigger]
            value_of(final(origins)@, path) == origins_after(
                base@,
                overlay@,
                texts(prefix@),
                label@,
                old(origins)@,
                path,
            ),
    decreases overlay,
{
    let ghost start = origins@;
    let ghost top = texts(prefix@);
    assert(top.len() == prefix@.len());
    match (base, overlay) {
        (Json::Object(b), Json::Object(m)) => {
            let ghost o = entries(m@);
            assert(overlay@ == JsonModel::Object(o));
            assert(base@ == JsonModel::Object(entries(b@)));
            let mut i: usize = 0;
            while i < m.len()
                invariant
                    i <= m.len(),
                    *overlay == Json::Object(*m),
                    o == entries(m@),
                    overlay@ == JsonModel::Object(o),
                    base@ == JsonModel::Object(entries(b@)),
                    top == texts(prefix@),
                    top.len() == prefix@.len(),
                    forall|path: Seq<Seq<char>>| #[trigger]
                        value_of(origins@, path) == if top.is_prefix_of(path) && path.len() > top.len() && entry_before(
                            m@,
                            path[top.len() as int],
                            i as int,
                        ) {
                            origins_after(base@, overlay@, top, label@, start, path)
                        } else {
                            value_of(start, path)
                        },
                decreases m.len() - i,
            {
                let ghost key = m@[i as int].key@;
                let ghost before = origins@;
                let found = find_key(m, &m[i].key);
                let counts = match found {
                    Some(at) => at == i,
                    None => false,
                };
                proof {
                    lemma_entry_before_step(m@, i as int);
                    if !counts && is_entry(m@, key, i as int) {
                        lemma_entry(m@, key, i as int);
                        let at = found->0;
                        assert(m@[at as int].key@ == key && m@[i as int].key@ == key);
                    }
                    assert(counts == is_entry(m@, key, i as int));
                }
                if counts {
                    proof {
                        lemma_entry(m@, key, i as int);
                    }
                    let path_below = below(prefix, &m[i].key);
                    assert(path_below@.len() == texts(path_below@).len());
                    let is_null = match &m[i].value {
                        Json::Null => true,
                        _ => false,
                    };
                    if is_null {
                        remove_origin_subtree(origins, &path_below);
                    } else {
                        let child = match get(b, &m[i].key) {
                            Some(v) => v.copy(),
                            None => Json::Null,
                        };
                        assert(child@ == or_null(entries(b@), key));
                        update_origins(origins, &child, &m[i].value, &path_below, label);
                    }
                    assert forall|path: Seq<Seq<char>>| #[trigger]
                        value_of(origins@, path) == if top.is_prefix_of(path) && path.len() > top.len() && entry_before(
                            m@,
                            path[top.len() as int],
                            i + 1,
                        ) {
                            origins_after(base@, overlay@, top, label@, start, path)
                        } else {
                            value_of(start, path)
                        } by {
                        lemma_prefix_push(top, key, path);
                        assert(value_of(before, path) == if top.is_prefix_of(path) && path.len() > top.len()
                            && entry_before(m@, path[top.len() as int], i as int) {
                            origins_after(base@, overlay@, top, label@, start, path)
                        } else {
                            value_of(start, path)
                        });
                        if top.push(key).is_prefix_of(path) {
                            let rest = path.skip(top.len() as int);
                            assert(rest[0] == key);
                            assert(path.skip(top.push(key).len() as int) == rest.drop_first());
                            assert(value_of(before, path) == value_of(start, path));
                        }
                    }
                }
                i += 1;
            }
            assert forall|path: Seq<Seq<char>>| #[trigger]
                value_of(origins@, path) == origins_after(base@, overlay@, top, label@, start, path) by {
                if top.is_prefix_of(path) {
                    let rest = path.skip(top.len() as int);
                    if rest.len() > 0 {
                        assert(rest[0] == path[top.len() as int]);
                        if o.dom().contains(rest[0]) {
                            let j = lemma_entry_of(m@, rest[0]);
                            assert(0 <= j < m@.len() && is_entry(m@, rest[0], j));
                            assert(entry_before(m@, rest[0], m@.len() as int));
                        } else if entry_before(m@, rest[0], m@.len() as int) {
                            let j = choose|j: int| 0 <= j < m@.len() && #[trigger] is_entry(m@, rest[0], j);
                            lemma_entry(m@, rest[0], j);
                        }
                    }
                }
            }
        },
        _ => {
            remove_origin_subtree(origins, prefix);
            let ghost cleared = origins@;
            record_origin_leaves(origins, overlay, prefix, label);
            assert(!(base@ is Object && overlay@ is Object));
            assert forall|path: Seq<Seq<char>>| #[trigger]
                value_of(origins@, path) == origins_after(base@, overlay@, top, label@, start, path) by {
                assert(value_of(cleared, path) == if top.is_prefix_of(path) {
                    None
                } else {
                    value_of(start, path)
                });
            }
        },
    }
}

/// A setting that an overlay names, a plain value below the whole, comes from the overlay.
pub proof fn law_named_setting_comes_from_the_overlay(
    base: JsonModel,
    overlay: JsonModel,
    label: Seq<char>,
    before: Option<Seq<char>>,
    path: Seq<Seq<char>>,
)
    requires
        leaf_at(overlay, path),
        crate::json::value_at(overlay, path)->0 !is Null,
    ensures
        origin_after(base, overlay, label, before, path) == Some(label),
    decreases path.len(),
{
    match (base, overlay) {
        (JsonModel::Object(b), JsonModel::Object(o)) => {
            assert(path.len() > 0);
            assert(o[path[0]] != JsonModel::Null) by {
                if o[path[0]] == JsonModel::Null {
                    assert(crate::json::value_at(JsonModel::Null, path.drop_first()) == crate::json::value_at(
                        overlay,
                        path,
                    ));
                }
            }
            law_named_setting_comes_from_the_overlay(
                or_null(b, path[0]),
                o[path[0]],
                label,
                before,
                path.drop_first(),
            );
        },
        _ => {},
    }
}

} // verus!
