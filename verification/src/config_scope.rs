//! Configuration by scope: where its files stand, how they are laid over each other and how they change.
use vstd::prelude::*;

use crate::json::{
    can_set, entries, get_dotted, merge_json, opt_json, removal, remove_dotted, segments_valid, set_dotted, value_at, with_value,
    without_value, Json, JsonModel, KeyError, Member,
};
use crate::jsonc::{json_read, jsonc_value, parse_jsonc_value, read_json, ParseError};
use crate::link_apply::value_of;
use crate::links::opt_text;
use crate::paths::{opt_path, FilePath, PathParts};
use crate::project::{kind_at, FactModel, Files, SourceKind, PROJECT_FILE_NAME, PROJECT_JSON_FILE_NAME};
use crate::roots::{has_file, parent_or, project_meant, resolve_project_path, DirectoryNames, ResolveError};
use crate::settings::{
    is_setting_error, layered, layers_of, merge_config_layers, origin_after, settings_valid, update_origins, SettingError,
};
use crate::table::Table;
use crate::text::{pieces, texts};
use crate::wally_sync::PathKey;

verus! {

broadcast use vstd::seq_lib::group_seq_properties;

/// Whom a configuration is for, from the widest to the narrowest, or all of them together.
#[derive(PartialEq, Eq, Structural, Clone, Copy, Debug)]
pub enum ConfigScope {
    User,
    Workspace,
    Experience,
    Place,
    Merged,
}

/// `check` asks whether the file is formatted and writes nothing.
pub struct FmtProjectArgs {
    pub project: Option<FilePath>,
    pub check: bool,
}

pub struct ExplainPathArgs {
    pub path: FilePath,
    pub project: Option<FilePath>,
    pub pretty: bool,
}

pub struct ConfigArgs {
    pub command: ConfigCommand,
}

pub enum ConfigCommand {
    Get(ConfigGetArgs),
    Assign(ConfigSetArgs),
    Unset(ConfigUnsetArgs),
    Reset(ConfigScopeArgs),
    List(ConfigListArgs),
    Edit(ConfigScopeArgs),
    Path(ConfigScopeArgs),
    Export(ConfigExportArgs),
}

pub struct ConfigGetArgs {
    pub key: Option<String>,
    pub scope: ConfigScope,
    pub root: FilePath,
}

/// `string` takes the value as it is written.
pub struct ConfigSetArgs {
    pub key: String,
    pub value: String,
    pub scope: ConfigScope,
    pub root: FilePath,
    pub string: bool,
}

pub struct ConfigUnsetArgs {
    pub key: String,
    pub scope: ConfigScope,
    pub root: FilePath,
}

pub struct ConfigScopeArgs {
    pub scope: ConfigScope,
    pub root: FilePath,
}

pub struct ConfigListArgs {
    pub scope: ConfigScope,
    pub root: FilePath,
    pub origins: bool,
}

pub struct ConfigExportArgs {
    pub output: Option<FilePath>,
    pub root: FilePath,
}

/// The first directory, from one upward, that has something of a name.
pub open spec fn ancestor_with(files: Map<PathParts, FactModel>, directory: PathParts, marker: Seq<char>) -> Option<PathParts>
    decreases directory.parts.len(),
{
    if kind_at(files, PathParts { rooted: directory.rooted, parts: directory.parts.push(marker) }) != SourceKind::Missing {
        Some(directory)
    } else if directory.parts.len() == 0 {
        None
    } else {
        ancestor_with(files, PathParts { rooted: directory.rooted, parts: directory.parts.drop_last() }, marker)
    }
}

/// Finds the first directory, from one upward, that has something of a name.
pub fn find_ancestor_with(files: &Files, root: &FilePath, marker: &str) -> (r: Option<FilePath>)
    ensures
        opt_path(r) == ancestor_with(files@, root@, marker@),
{
    let mut current = root.copy();
    loop
        invariant
            ancestor_with(files@, root@, marker@) == ancestor_with(files@, current@, marker@),
        decreases current@.parts.len(),
    {
        if files.kind(&current.child(marker)) != SourceKind::Missing {
            return Some(current);
        }
        match current.parent() {
            Some(parent) => {
                current = parent;
            },
            None => {
                return None;
            },
        }
    }
}

/// The first directory, from one upward, that has a project file.
pub open spec fn marked_directory(files: Map<PathParts, FactModel>, directory: PathParts) -> Option<PathParts>
    decreases directory.parts.len(),
{
    if has_file(files, directory, PROJECT_FILE_NAME@) || has_file(files, directory, PROJECT_JSON_FILE_NAME@) {
        Some(directory)
    } else if directory.parts.len() == 0 {
        None
    } else {
        marked_directory(files, PathParts { rooted: directory.rooted, parts: directory.parts.drop_last() })
    }
}

/// The directory that a search starts in: that of a file.
pub open spec fn search_start(files: Map<PathParts, FactModel>, path: PathParts) -> PathParts {
    if kind_at(files, path) == SourceKind::File {
        parent_or(path, path)
    } else {
        path
    }
}

/// Finds the first directory, from a path upward, that has a project file.
pub fn nearest_project_marker(files: &Files, root: &FilePath) -> (r: Option<FilePath>)
    ensures
        opt_path(r) == marked_directory(files@, search_start(files@, root@)),
{
    let mut current = root.copy();
    if files.kind(root) == SourceKind::File {
        match root.parent() {
            Some(parent) => {
                current = parent;
            },
            None => {},
        }
    }
    let ghost start = current@;
    loop
        invariant
            start == search_start(files@, root@),
            marked_directory(files@, start) == marked_directory(files@, current@),
        decreases current@.parts.len(),
    {
        if files.kind(&current.child(PROJECT_FILE_NAME)) == SourceKind::File || files.kind(&current.child(PROJECT_JSON_FILE_NAME))
            == SourceKind::File {
            return Some(current);
        }
        match current.parent() {
            Some(parent) => {
                current = parent;
            },
            None => {
                return None;
            },
        }
    }
}

/// The kind of machine a configuration is kept on.
#[derive(PartialEq, Eq, Structural, Clone, Copy, Debug)]
pub enum Platform {
    Windows,
    Mac,
    Other,
}

/// The directories that a machine names for its user.
pub struct UserDirectories {
    pub app_data: Option<FilePath>,
    pub home: Option<FilePath>,
    pub config_home: Option<FilePath>,
}

/// Why the configuration of a scope has no path.
#[derive(PartialEq, Eq, Structural, Clone, Copy, Debug)]
pub enum ScopeError {
    NoAppData,
    NoHome,
    Project(ResolveError),
    /// All scopes together have no file.
    Merged,
}

pub open spec fn below_names(directory: PathParts, names: Seq<Seq<char>>) -> PathParts {
    PathParts { rooted: directory.rooted, parts: directory.parts + names }
}

/// The file of a user's configuration.
pub open spec fn user_path(platform: Platform, user: UserDirectories) -> Result<PathParts, ScopeError> {
    match platform {
        Platform::Windows => match opt_path(user.app_data) {
            Some(base) => Ok(below_names(base, seq!["Renium"@, "config.json"@])),
            None => Err(ScopeError::NoAppData),
        },
        Platform::Mac => match opt_path(user.home) {
            Some(home) => Ok(below_names(home, seq!["Library"@, "Application Support"@, "Renium"@, "config.json"@])),
            None => Err(ScopeError::NoHome),
        },
        Platform::Other => match opt_path(user.config_home) {
            Some(base) => Ok(below_names(base, seq!["renium"@, "config.json"@])),
            None => match opt_path(user.home) {
                Some(home) => Ok(below_names(home, seq![".config"@, "renium"@, "config.json"@])),
                None => Err(ScopeError::NoHome),
            },
        },
    }
}

pub open spec fn scope_path_of(r: Result<FilePath, ScopeError>) -> Result<PathParts, ScopeError> {
    match r {
        Ok(path) => Ok(path@),
        Err(e) => Err(e),
    }
}

/// Finds the file of a user's configuration.
pub fn user_config_path(platform: Platform, user: &UserDirectories) -> (r: Result<FilePath, ScopeError>)
    ensures
        scope_path_of(r) == user_path(platform, *user),
{
    match platform {
        Platform::Windows => match &user.app_data {
            Some(base) => {
                let path = base.child("Renium").child("config.json");
                assert(path@ =~= below_names(base@, seq!["Renium"@, "config.json"@]));
                Ok(path)
            },
            None => Err(ScopeError::NoAppData),
        },
        Platform::Mac => match &user.home {
            Some(home) => {
                let path = home.child("Library").child("Application Support").child("Renium").child("config.json");
                assert(path@ =~= below_names(home@, seq!["Library"@, "Application Support"@, "Renium"@, "config.json"@]));
                Ok(path)
            },
            None => Err(ScopeError::NoHome),
        },
        Platform::Other => match &user.config_home {
            Some(base) => {
                let path = base.child("renium").child("config.json");
                assert(path@ =~= below_names(base@, seq!["renium"@, "config.json"@]));
                Ok(path)
            },
            None => match &user.home {
                Some(home) => {
                    let path = home.child(".config").child("renium").child("config.json");
                    assert(path@ =~= below_names(home@, seq![".config"@, "renium"@, "config.json"@]));
                    Ok(path)
                },
                None => Err(ScopeError::NoHome),
            },
        },
    }
}

/// The directory of a scope: that of a marker above, or the one that was asked for.
pub open spec fn scope_root(files: Map<PathParts, FactModel>, root: PathParts, marker: Seq<char>) -> PathParts {
    match ancestor_with(files, root, marker) {
        Some(found) => found,
        None => root,
    }
}

/// The directory of a place: that of the project it belongs to, or the one that was asked for.
pub open spec fn place_root(
    files: Map<PathParts, FactModel>,
    listings: Map<PathParts, Seq<Seq<char>>>,
    root: PathParts,
) -> Result<PathParts, ScopeError> {
    if marked_directory(files, search_start(files, root)) is Some {
        match project_meant(files, listings, None, root) {
            Err(e) => Err(ScopeError::Project(e)),
            Ok(None) => Err(ScopeError::Project(ResolveError::NotFound)),
            Ok(Some(path)) => Ok(parent_or(path, PathParts { rooted: false, parts: Seq::empty() })),
        }
    } else {
        Ok(root)
    }
}

/// The file of the configuration of a scope.
pub open spec fn scope_path(
    scope: ConfigScope,
    files: Map<PathParts, FactModel>,
    listings: Map<PathParts, Seq<Seq<char>>>,
    platform: Platform,
    user: UserDirectories,
    root: PathParts,
) -> Result<PathParts, ScopeError> {
    match scope {
        ConfigScope::User => user_path(platform, user),
        ConfigScope::Workspace => Ok(below_names(scope_root(files, root, ".git"@), seq![".renium"@, "workspace.config.json"@])),
        ConfigScope::Experience => Ok(
            below_names(scope_root(files, root, "renium.experience.json"@), seq!["renium.config.json"@]),
        ),
        ConfigScope::Place => match place_root(files, listings, root) {
            Err(e) => Err(e),
            Ok(root) => Ok(below_names(root, seq![".renium"@, "config.json"@])),
        },
        ConfigScope::Merged => Err(ScopeError::Merged),
    }
}

fn find_scope_root(files: &Files, root: &FilePath, marker: &str) -> (r: FilePath)
    ensures
        r@ == scope_root(files@, root@, marker@),
{
    match find_ancestor_with(files, root, marker) {
        Some(found) => found,
        None => root.copy(),
    }
}

fn find_place_root(files: &Files, listings: &Table<FilePath, DirectoryNames>, root: &FilePath) -> (r: Result<FilePath, ScopeError>)
    ensures
        scope_path_of(r) == place_root(files@, listings@, root@),
{
    if nearest_project_marker(files, root).is_none() {
        return Ok(root.copy());
    }
    let unnamed: Option<FilePath> = None;
    match resolve_project_path(files, listings, &unnamed, root) {
        Err(e) => Err(ScopeError::Project(e)),
        Ok(path) => match path.parent() {
            Some(parent) => Ok(parent),
            None => {
                let here = FilePath::relative(Vec::new());
                assert(here@ =~= (PathParts { rooted: false, parts: Seq::empty() }));
                Ok(here)
            },
        },
    }
}

/// Finds the file of the configuration of a scope. All scopes together have none.
pub fn config_scope_path(
    scope: ConfigScope,
    files: &Files,
    listings: &Table<FilePath, DirectoryNames>,
    platform: Platform,
    user: &UserDirectories,
    root: &FilePath,
) -> (r: Result<FilePath, ScopeError>)
    ensures
        scope_path_of(r) == scope_path(scope, files@, listings@, platform, *user, root@),
{
    match scope {
        ConfigScope::User => user_config_path(platform, user),
        ConfigScope::Workspace => {
            let found = find_scope_root(files, root, ".git");
            let path = found.child(".renium").child("workspace.config.json");
            assert(path@ =~= below_names(found@, seq![".renium"@, "workspace.config.json"@]));
            Ok(path)
        },
        ConfigScope::Experience => {
            let found = find_scope_root(files, root, "renium.experience.json");
            let path = found.child("renium.config.json");
            assert(path@ =~= below_names(found@, seq!["renium.config.json"@]));
            Ok(path)
        },
        ConfigScope::Place => match find_place_root(files, listings, root) {
            Err(e) => Err(e),
            Ok(found) => {
                let path = found.child(".renium").child("config.json");
                assert(path@ =~= below_names(found@, seq![".renium"@, "config.json"@]));
                Ok(path)
            },
        },
        ConfigScope::Merged => Err(ScopeError::Merged),
    }
}

/// A configuration can be changed in every scope but that of all together.
pub open spec fn is_writable(scope: ConfigScope) -> bool {
    scope != ConfigScope::Merged
}

/// Whether a configuration can be changed in a scope.
pub fn ensure_writable_scope(scope: ConfigScope) -> (r: bool)
    ensures
        r == is_writable(scope),
{
    scope != ConfigScope::Merged
}

/// What is laid over what came before: the file of a scope and what it holds, if there is one.
pub struct ScopeFile {
    pub path: FilePath,
    pub content: Option<Json>,
}

/// The layers of the first `n` scope files, with one of them replaced.
pub open spec fn scope_layers(list: Seq<ScopeFile>, replaced: Option<(PathParts, JsonModel)>, n: nat) -> Seq<JsonModel>
    decreases n,
{
    if n == 0 {
        Seq::empty()
    } else {
        let before = scope_layers(list, replaced, (n - 1) as nat);
        let file = list[n - 1];
        if replaced is Some && (replaced->0).0 == file.path@ {
            before.push((replaced->0).1)
        } else {
            match opt_json(file.content) {
                Some(value) => before.push(value),
                None => before,
            }
        }
    }
}

/// All layers: those of the scopes and then the settings of the project, where they are an object.
pub open spec fn config_layers(list: Seq<ScopeFile>, replaced: Option<(PathParts, JsonModel)>, settings: Option<JsonModel>) -> Seq<
    JsonModel,
> {
    let scopes = scope_layers(list, replaced, list.len());
    match settings {
        Some(JsonModel::Object(o)) => scopes.push(JsonModel::Object(o)),
        _ => scopes,
    }
}

pub open spec fn replacement(path: FilePath, value: Option<Json>) -> Option<(PathParts, JsonModel)> {
    match value {
        Some(value) => Some((path@, value@)),
        None => None,
    }
}

fn push_layer(list: &mut Vec<Json>, x: Json)
    ensures
        layers_of(final(list)@) == layers_of(old(list)@).push(x@),
{
    let ghost before = list@;
    list.push(x);
    assert(layers_of(list@) =~= layers_of(before).push(x@));
}

/// Lists the layers of a configuration, with what stands at a path replaced by a value, if there is one.
pub fn list_config_layers(files: &Vec<ScopeFile>, path: &FilePath, value: &Option<Json>, settings: &Option<Json>) -> (r: Vec<Json>)
    ensures
        layers_of(r@) == config_layers(files@, replacement(*path, *value), opt_json(*settings)),
{
    let ghost replaced = replacement(*path, *value);
    let mut out: Vec<Json> = Vec::new();
    assert(layers_of(out@) =~= Seq::empty());
    let mut i: usize = 0;
    while i < files.len()
        invariant
            i <= files.len(),
            replaced == replacement(*path, *value),
            layers_of(out@) == scope_layers(files@, replaced, i as nat),
        decreases files.len() - i,
    {
        let instead = match value {
            Some(value) => if path.is_same(&files[i].path) {
                Some(value.copy())
            } else {
                None
            },
            None => None,
        };
        match instead {
            Some(value) => {
                push_layer(&mut out, value);
            },
            None => match &files[i].content {
                Some(content) => {
                    push_layer(&mut out, content.copy());
                },
                None => {},
            },
        }
        i += 1;
    }
    match settings {
        Some(value) => match value {
            Json::Object(_) => {
                push_layer(&mut out, value.copy());
            },
            _ => {},
        },
        None => {},
    }
    out
}

/// Reads a configuration: that of one scope, which is empty without a file, or all laid over each other.
pub fn load_config_scope(files: &Vec<ScopeFile>, settings: &Option<Json>, scope: ConfigScope, own: &Option<Json>) -> (r: Result<
    Json,
    SettingError,
>)
    ensures
        if scope == ConfigScope::Merged {
            let value = layered(config_layers(files@, None, opt_json(*settings)), config_layers(files@, None, opt_json(*settings)).len());
            match r {
                Ok(v) => v@ == value && settings_valid(Seq::empty(), value),
                Err(e) => !settings_valid(Seq::empty(), value) && is_setting_error(Seq::empty(), value, e@),
            }
        } else {
            r is Ok && r->Ok_0@ == match opt_json(*own) {
                Some(v) => v,
                None => JsonModel::Object(Map::empty()),
            }
        },
{
    if scope != ConfigScope::Merged {
        return match own {
            Some(v) => Ok(v.copy()),
            None => {
                let empty: Vec<crate::json::Member> = Vec::new();
                Ok(Json::Object(empty))
            },
        };
    }
    let nowhere = FilePath::relative(Vec::new());
    let nothing: Option<Json> = None;
    let layers = list_config_layers(files, &nowhere, &nothing, settings);
    assert(layers_of(layers@).len() == layers@.len());
    merge_config_layers(&layers)
}

/// What is asked of a configuration file.
pub enum ConfigChange {
    Assign { key: String, value: Json },
    Unset { key: String },
    Reset,
}

/// Why a configuration is not changed.
#[derive(Debug)]
pub enum ConfigChangeError {
    ReadOnly,
    Key(KeyError),
    NotSet,
    Invalid(SettingError),
}

/// The configuration after a change.
pub open spec fn changed_config(change: ConfigChange, current: JsonModel) -> JsonModel {
    match change {
        ConfigChange::Assign { key, value } => with_value(current, pieces(key@, '.'), value@),
        ConfigChange::Unset { key } => without_value(current, pieces(key@, '.')),
        ConfigChange::Reset => JsonModel::Object(Map::empty()),
    }
}

/// What stands in the way of a change, before the whole is checked.
pub open spec fn change_refused(change: ConfigChange, current: JsonModel) -> Option<ConfigChangeError> {
    match change {
        ConfigChange::Assign { key, value } => if !segments_valid(pieces(key@, '.')) {
            Some(ConfigChangeError::Key(KeyError::EmptySegment))
        } else if !can_set(current, pieces(key@, '.')) {
            Some(ConfigChangeError::Key(KeyError::ParentNotObject))
        } else {
            None
        },
        ConfigChange::Unset { key } => if !segments_valid(pieces(key@, '.')) {
            Some(ConfigChangeError::Key(KeyError::EmptySegment))
        } else {
            match removal(current, pieces(key@, '.')) {
                None => Some(ConfigChangeError::Key(KeyError::ParentNotObject)),
                Some(false) => Some(ConfigChangeError::NotSet),
                Some(true) => None,
            }
        },
        ConfigChange::Reset => None,
    }
}

/// Changes the configuration of a scope, whose file stands at `path` and holds `current`, and checks
/// what all scopes together then say.
pub fn change_config(
    change: &ConfigChange,
    scope: ConfigScope,
    path: &FilePath,
    current: &Json,
    files: &Vec<ScopeFile>,
    settings: &Option<Json>,
) -> (r: Result<Json, ConfigChangeError>)
    ensures
        if !is_writable(scope) {
            r is Err && r->Err_0 is ReadOnly
        } else if change_refused(*change, current@) is Some {
            r is Err && r->Err_0 == change_refused(*change, current@)->0
        } else {
            let new = changed_config(*change, current@);
            let layers = config_layers(files@, Some((path@, new)), opt_json(*settings));
            let whole = layered(layers, layers.len());
            match r {
                Ok(v) => v@ == new && settings_valid(Seq::empty(), whole),
                Err(e) => !settings_valid(Seq::empty(), whole) && e is Invalid && is_setting_error(
                    Seq::empty(),
                    whole,
                    e->Invalid_0@,
                ),
            }
        },
{
    if !ensure_writable_scope(scope) {
        return Err(ConfigChangeError::ReadOnly);
    }
    let mut new = current.copy();
    match change {
        ConfigChange::Assign { key, value } => match set_dotted(&mut new, key, value.copy()) {
            Ok(_) => {},
            Err(e) => {
                return Err(ConfigChangeError::Key(e));
            },
        },
        ConfigChange::Unset { key } => match remove_dotted(&mut new, key) {
            Ok(true) => {},
            Ok(false) => {
                return Err(ConfigChangeError::NotSet);
            },
            Err(e) => {
                return Err(ConfigChangeError::Key(e));
            },
        },
        ConfigChange::Reset => {
            let empty: Vec<crate::json::Member> = Vec::new();
            new = Json::Object(empty);
        },
    }
    assert(new@ == changed_config(*change, current@));
    let value = Some(new.copy());
    let layers = list_config_layers(files, path, &value, settings);
    assert(layers_of(layers@).len() == layers@.len());
    match merge_config_layers(&layers) {
        Ok(_) => Ok(new),
        Err(e) => Err(ConfigChangeError::Invalid(e)),
    }
}

/// The value that is meant by a text: itself, or what it says where it is read and can be.
pub open spec fn meant_value(string: bool, text: Seq<char>, read: Option<JsonModel>) -> JsonModel {
    if string || read is None {
        JsonModel::Text(text)
    } else {
        read->0
    }
}

/// Finds the value that is meant by a text. `read` is what the text says, where it can be read.
pub fn setting_value(string: bool, text: &str, read: &Option<Json>) -> (r: Json)
    ensures
        r@ == meant_value(string, text@, opt_json(*read)),
{
    match read {
        Some(v) => if !string {
            v.copy()
        } else {
            Json::Text(text.to_owned())
        },
        None => Json::Text(text.to_owned()),
    }
}

/// Finds the value that is meant by a text that was given for a setting: what it says as JSON, or the text
/// itself where it is meant as one or is no JSON.
pub fn read_setting(string: bool, text: &str) -> (r: Json)
    ensures
        r@ == meant_value(string, text@, json_read(text@)),
{
    setting_value(string, text, &read_json(text))
}

/// Why a configuration file is refused.
#[derive(PartialEq, Eq, Structural, Clone, Copy, Debug)]
pub enum ReadError {
    Parse(ParseError),
    NotAnObject,
}

/// What a configuration file says: nothing but an object is taken, and a file that is not there stands for
/// an empty one.
pub open spec fn object_of(text: Option<Seq<char>>) -> Result<JsonModel, ReadError> {
    match text {
        None => Ok(JsonModel::Object(Map::empty())),
        Some(text) => match jsonc_value(text) {
            Err(e) => Err(ReadError::Parse(e)),
            Ok(v) => if v is Object {
                Ok(v)
            } else {
                Err(ReadError::NotAnObject)
            },
        },
    }
}

/// Reads the text of a configuration file, if there is one.
pub fn read_json_object_or_empty(text: &Option<String>) -> (r: Result<Json, ReadError>)
    ensures
        match object_of(opt_text(*text)) {
            Ok(v) => r is Ok && r->Ok_0@ == v,
            Err(e) => r is Err && r->Err_0 == e,
        },
{
    match text {
        None => {
            let members: Vec<Member> = Vec::new();
            assert(entries(members@) =~= Map::empty());
            Ok(Json::Object(members))
        },
        Some(text) => match parse_jsonc_value(text) {
            Err(e) => Err(ReadError::Parse(e)),
            Ok(value) => match &value {
                Json::Object(_) => Ok(value),
                _ => Err(ReadError::NotAnObject),
            },
        },
    }
}

/// Finds a setting, or the whole configuration without a key.
pub fn find_setting(config: &Json, key: &Option<String>) -> (r: Option<Json>)
    ensures
        opt_json(r) == match *key {
            None => Some(config@),
            Some(key) => if segments_valid(pieces(key@, '.')) {
                value_at(config@, pieces(key@, '.'))
            } else {
                None
            },
        },
{
    match key {
        None => Some(config.copy()),
        Some(key) => match get_dotted(config, key) {
            Some(v) => Some(v.copy()),
            None => None,
        },
    }
}

/// What a setting was set to is what it then is, in the file that was changed.
pub proof fn law_set_is_read_back(key: String, value: Json, current: JsonModel)
    requires
        change_refused(ConfigChange::Assign { key, value }, current) is None,
    ensures
        value_at(changed_config(ConfigChange::Assign { key, value }, current), pieces(key@, '.')) == Some(value@),
{
    crate::json::law_set_then_get(current, pieces(key@, '.'), value@);
}

/// What was taken out is not there any more, in the file that was changed.
pub proof fn law_unset_is_gone(key: String, current: JsonModel)
    requires
        change_refused(ConfigChange::Unset { key }, current) is None,
    ensures
        value_at(changed_config(ConfigChange::Unset { key }, current), pieces(key@, '.')) is None,
{
    crate::json::law_remove_then_get(current, pieces(key@, '.'));
}

/// A layer of a configuration and what it is called.
pub struct LabelledLayer {
    pub label: String,
    pub value: Json,
}

pub open spec fn layer_values(v: Seq<LabelledLayer>) -> Seq<JsonModel> {
    Seq::new(v.len(), |i: int| v[i].value@)
}

/// Where a setting comes from after the first `n` layers.
pub open spec fn origin_of(v: Seq<LabelledLayer>, n: nat, path: Seq<Seq<char>>) -> Option<Seq<char>>
    decreases n,
{
    if n == 0 {
        None
    } else {
        let base = layered(layer_values(v), (n - 1) as nat);
        let overlay = v[n - 1].value@;
        match origin_after(base, overlay, v[n - 1].label@, origin_of(v, (n - 1) as nat, path), path) {
            Some(label) => if path.len() == 0 && !(base is Object && overlay is Object) {
                None
            } else {
                Some(label)
            },
            None => None,
        }
    }
}

/// A configuration with where each of its settings comes from.
pub struct ConfigOrigins {
    pub values: Json,
    pub origins: Table<PathKey, String>,
}

/// Lays layers over each other and follows where each setting comes from.
pub fn config_with_origins(layers: &Vec<LabelledLayer>) -> (r: ConfigOrigins)
    ensures
        r.values@ == layered(layer_values(layers@), layers@.len()),
        forall|path: Seq<Seq<char>>| #[trigger] value_of(r.origins@, path) == origin_of(layers@, layers@.len(), path),
{
    let mut values = crate::settings::base_config_value();
    let mut origins: Table<PathKey, String> = Table::new();
    let none: Vec<String> = Vec::new();
    let ghost all = layer_values(layers@);
    assert(texts(none@) =~= Seq::empty());
    let mut i: usize = 0;
    while i < layers.len()
        invariant
            i <= layers.len(),
            all == layer_values(layers@),
            texts(none@) == Seq::<Seq<char>>::empty(),
            values@ == layered(all, i as nat),
            forall|path: Seq<Seq<char>>| #[trigger] value_of(origins@, path) == origin_of(layers@, i as nat, path),
        decreases layers.len() - i,
    {
        let ghost before = origins@;
        let ghost base = values@;
        assert(all[i as int] == layers@[i as int].value@);
        update_origins(&mut origins, &values, &layers[i].value, &none, &layers[i].label);
        merge_json(&mut values, &layers[i].value);
        assert forall|path: Seq<Seq<char>>| #[trigger] value_of(origins@, path) == origin_of(layers@, (i + 1) as nat, path) by {
            assert(value_of(before, path) == origin_of(layers@, i as nat, path));
            assert(path.skip(0) =~= path);
            assert(Seq::<Seq<char>>::empty().is_prefix_of(path));
        }
        i += 1;
    }
    ConfigOrigins { values, origins }
}

} // verus!
