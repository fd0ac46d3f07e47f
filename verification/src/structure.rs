//! Changes to the structure of a project: which store an instance of a projection is changed in, and
//! where imported files go.
use vstd::prelude::*;

use crate::document::{instance_path_parts, path_names, path_ordinals, InstanceModel, SettingsDocument};
use crate::links::opt_text;
use crate::mapping::{staged_target, OwnerKind, ProjectWriteResolution, ResolutionModel, ScriptName};
use crate::order::views;
use crate::paths::{
    ends_in, ends_with_ignore_ascii_case, extension_of, joined_path, last_name, path_starts_with, portable_path, split_extension,
    validate_relative_portable_path, FilePath, PathParts, PortableError,
};
use crate::project::{key_at, FactModel, Files};
use crate::projection::{IdentityModel, ProjectionStage, TransformModel};
use crate::link_apply::value_of;
use crate::text::{chars_of, clone_texts, joined, lemma_texts_push, same, subtexts, text_from, texts, trim, trimmed};

verus! {

broadcast use vstd::seq_lib::group_seq_properties;

/// Why the structure of an instance can not be changed.
#[derive(PartialEq, Eq, Structural, Clone, Copy, Debug)]
pub enum StructuralError {
    /// The projection has no store of the service.
    NoStore,
    /// The store has no instance of the id.
    UnknownId,
    /// A package that may not be changed holds it.
    ReadOnly,
    /// Another instance of the name comes before it.
    Duplicate,
    /// A rule made it of a file.
    Transformed,
    /// The project names it.
    Declarative,
    /// It belongs to another store.
    OtherStore,
    /// Only the project describes it.
    OnlyDescribed,
}

/// An instance of a projection: the names and ordinals on the way to it.
pub struct StructuralTarget {
    pub segments: Vec<String>,
    pub ordinals: Vec<usize>,
}

/// The first instance at or after the `i`th with an id.
pub open spec fn with_id(doc: Seq<InstanceModel>, id: Seq<char>, i: int) -> Option<int>
    decreases doc.len() - i,
{
    if i < 0 || i >= doc.len() {
        None
    } else if doc[i].id == id {
        Some(i)
    } else {
        with_id(doc, id, i + 1)
    }
}

/// Finds an instance by its id.
pub fn find_id(doc: &SettingsDocument, id: &str) -> (r: Option<usize>)
    ensures
        match r {
            Some(i) => with_id(doc@, id@, 0) == Some(i as int) && i < doc@.len(),
            None => with_id(doc@, id@, 0) is None,
        },
{
    let mut i: usize = 0;
    while i < doc.instances.len()
        invariant
            i <= doc.instances.len(),
            with_id(doc@, id@, 0) == with_id(doc@, id@, i as int),
        decreases doc.instances.len() - i,
    {
        assert(doc@[i as int] == doc.instances@[i as int]@);
        if same(&doc.instances[i].settings_id, id) {
            return Some(i);
        }
        i += 1;
    }
    None
}

/// Finds an instance of a projection by its id in the store of a service, or the service itself.
pub fn projected_structural_target(document: &Option<SettingsDocument>, service: &str, settings_id: &Option<String>) -> (r: Result<
    StructuralTarget,
    StructuralError,
>)
    ensures
        match *document {
            None => r is Err && r->Err_0 == StructuralError::NoStore,
            Some(doc) => match *settings_id {
                None => r is Ok && texts(r->Ok_0.segments@) == seq![service@] && r->Ok_0.ordinals@ == seq![1usize],
                Some(id) => match with_id(doc@, id@, 0) {
                    Some(i) => r is Ok && texts(r->Ok_0.segments@) == path_names(doc@, i) && r->Ok_0.ordinals@ == path_ordinals(
                        doc@,
                        i,
                    ),
                    None => r is Err && r->Err_0 == StructuralError::UnknownId,
                },
            },
        },
{
    match document {
        None => Err(StructuralError::NoStore),
        Some(doc) => match settings_id {
            None => {
                let mut segments: Vec<String> = Vec::new();
                segments.push(service.to_owned());
                assert(texts(segments@) =~= seq![service@]);
                let mut ordinals: Vec<usize> = Vec::new();
                ordinals.push(1);
                assert(ordinals@ =~= seq![1usize]);
                Ok(StructuralTarget { segments, ordinals })
            },
            Some(id) => match find_id(doc, id) {
                None => Err(StructuralError::UnknownId),
                Some(i) => {
                    let (segments, ordinals) = instance_path_parts(doc, i);
                    Ok(StructuralTarget { segments, ordinals })
                },
            },
        },
    }
}

/// What is known of an instance of a projection that is to be changed.
pub struct StructuralFacts {
    /// A package that may not be changed holds it.
    pub read_only: bool,
    /// The project names it.
    pub declarative: bool,
    /// The store that it belongs to.
    pub store: FilePath,
    /// The instances of that store.
    pub document: SettingsDocument,
}

pub open spec fn made_by_rule(transforms: Seq<TransformModel>, target: Seq<Seq<char>>) -> bool {
    exists|i: int| 0 <= i < transforms.len() && (#[trigger] transforms[i]).target.is_prefix_of(target)
}

pub open spec fn has_duplicate(ordinals: Seq<usize>) -> bool {
    exists|i: int| 0 <= i < ordinals.len() && #[trigger] ordinals[i] > 1
}

/// The id that an instance of a projection has in its store, where it may be changed there.
pub open spec fn store_id(
    transforms: Seq<TransformModel>,
    identities: Map<Seq<char>, IdentityModel>,
    files: Map<PathParts, FactModel>,
    target: StructuralTarget,
    settings_id: Option<Seq<char>>,
    reject_declarative: bool,
    facts: StructuralFacts,
) -> Result<Option<Seq<char>>, StructuralError> {
    if facts.read_only {
        Err(StructuralError::ReadOnly)
    } else if settings_id is None && has_duplicate(target.ordinals@) {
        Err(StructuralError::Duplicate)
    } else if made_by_rule(transforms, texts(target.segments@)) {
        Err(StructuralError::Transformed)
    } else if reject_declarative && facts.declarative {
        Err(StructuralError::Declarative)
    } else {
        match settings_id {
            None => Ok(None),
            Some(id) => match value_of(identities, id) {
                Some(identity) => if key_at(files, identity.source) != key_at(files, facts.store@) {
                    Err(StructuralError::OtherStore)
                } else {
                    Ok(Some(identity.settings_id))
                },
                None => if with_id(facts.document@, id, 0) is Some {
                    Ok(Some(id))
                } else {
                    Err(StructuralError::OnlyDescribed)
                },
            },
        }
    }
}

fn any_duplicate(ordinals: &Vec<usize>) -> (r: bool)
    ensures
        r == has_duplicate(ordinals@),
{
    let mut i: usize = 0;
    while i < ordinals.len()
        invariant
            i <= ordinals.len(),
            forall|j: int| 0 <= j < i ==> #[trigger] ordinals@[j] <= 1,
        decreases ordinals.len() - i,
    {
        if ordinals[i] > 1 {
            return true;
        }
        i += 1;
    }
    false
}

/// Decides whether an instance of a projection may be changed in its store, and finds its id there.
pub fn projected_structural_store(
    stage: &ProjectionStage,
    files: &Files,
    target: &StructuralTarget,
    settings_id: &Option<String>,
    reject_declarative: bool,
    facts: &StructuralFacts,
) -> (r: Result<Option<String>, StructuralError>)
    ensures
        match r {
            Ok(id) => store_id(
                views(stage.transforms@),
                stage.identities@,
                files@,
                *target,
                opt_text(*settings_id),
                reject_declarative,
                *facts,
            ) == Ok::<Option<Seq<char>>, StructuralError>(opt_text(id)),
            Err(e) => store_id(
                views(stage.transforms@),
                stage.identities@,
                files@,
                *target,
                opt_text(*settings_id),
                reject_declarative,
                *facts,
            ) == Err::<Option<Seq<char>>, StructuralError>(e),
        },
{
    if facts.read_only {
        return Err(StructuralError::ReadOnly);
    }
    if settings_id.is_none() && any_duplicate(&target.ordinals) {
        return Err(StructuralError::Duplicate);
    }
    if stage.target_is_transformed(&target.segments) {
        assert(made_by_rule(views(stage.transforms@), texts(target.segments@)));
        return Err(StructuralError::Transformed);
    }
    assert(!made_by_rule(views(stage.transforms@), texts(target.segments@)));
    if reject_declarative && facts.declarative {
        return Err(StructuralError::Declarative);
    }
    match settings_id {
        None => Ok(None),
        Some(id) => match stage.canonical_identity(id) {
            Some(identity) => {
                let theirs = files.key(&identity.source);
                let ours = files.key(&facts.store);
                if same(&theirs, &ours) {
                    Ok(Some(identity.settings_id.clone()))
                } else {
                    Err(StructuralError::OtherStore)
                }
            },
            None => match find_id(&facts.document, id) {
                Some(_) => Ok(Some(id.clone())),
                None => Err(StructuralError::OnlyDescribed),
            },
        },
    }
}

/// How an instance is moved below another.
#[derive(PartialEq, Eq, Structural, Clone, Copy, Debug)]
pub enum MoveStep {
    /// By a new parent in its store.
    SetParent,
    /// Out of its store into another.
    BetweenStores,
}

/// Why an instance is not moved.
#[derive(PartialEq, Eq, Structural, Clone, Copy, Debug)]
pub enum MoveError {
    NoSourceStore,
    NoTargetStore,
    NoSourceId,
    NoParentId,
}

/// Decides how an instance of a projection is moved: between stores where they differ, which takes the
/// ids of both.
pub fn projected_move(source: &FilePath, target: &FilePath, source_id: &Option<String>, parent_id: &Option<String>) -> (r: Result<
    MoveStep,
    MoveError,
>)
    ensures
        r == if source@ == target@ {
            Ok(MoveStep::SetParent)
        } else if *source_id is None {
            Err(MoveError::NoSourceId)
        } else if *parent_id is None {
            Err(MoveError::NoParentId)
        } else {
            Ok(MoveStep::BetweenStores)
        },
{
    if source.is_same(target) {
        Ok(MoveStep::SetParent)
    } else if source_id.is_none() {
        Err(MoveError::NoSourceId)
    } else if parent_id.is_none() {
        Err(MoveError::NoParentId)
    } else {
        Ok(MoveStep::BetweenStores)
    }
}

/// Decides how an instance is moved from one service to another, by whether their stores are there.
pub fn plain_move(source: &str, target: &str, has_source: bool, has_target: bool) -> (r: Result<MoveStep, MoveError>)
    ensures
        r == if !has_source {
            Err(MoveError::NoSourceStore)
        } else if source@ == target@ {
            Ok(MoveStep::SetParent)
        } else if !has_target {
            Err(MoveError::NoTargetStore)
        } else {
            Ok(MoveStep::BetweenStores)
        },
{
    if !has_source {
        Err(MoveError::NoSourceStore)
    } else if same(source, target) {
        Ok(MoveStep::SetParent)
    } else if !has_target {
        Err(MoveError::NoTargetStore)
    } else {
        Ok(MoveStep::BetweenStores)
    }
}

/// Why a place for an import is refused.
#[derive(PartialEq, Eq, Structural, Clone, Copy, Debug)]
pub enum ImportError {
    /// A service and a name are needed.
    TooShort,
    /// A name that can not be one on a path.
    Segment(usize),
    Portable(PortableError),
    /// What a file is translated into is not written to.
    Adapter,
    /// The place has no name.
    NoName,
    /// The source has no extension to go by.
    NoExtension,
    /// The project has no place for it.
    Unowned,
    /// It stands for no instance.
    NoInstance,
    /// A rule makes what it would stand for.
    Transformed,
    /// The project names what it would stand for.
    Declarative,
    /// Something else of the project stands there.
    Shadowed,
}

/// A name that can be one on a path.
pub open spec fn good_segment(s: Seq<char>) -> bool {
    trimmed(s).len() > 0 && s != "."@ && s != ".."@ && !s.contains('/') && !s.contains('\\')
}

/// The names from the `i`th on are checked in turn.
pub open spec fn segments_good(segments: Seq<Seq<char>>, i: int) -> Result<(), ImportError>
    decreases segments.len() - i,
{
    if i < 0 || i >= segments.len() {
        Ok(())
    } else if !good_segment(segments[i]) {
        Err(ImportError::Segment(i as usize))
    } else {
        segments_good(segments, i + 1)
    }
}

/// The path that names lead to.
pub open spec fn path_of_names(segments: Seq<Seq<char>>) -> Result<PathParts, ImportError> {
    if segments.len() < 2 {
        Err(ImportError::TooShort)
    } else {
        match segments_good(segments, 0) {
            Err(e) => Err(e),
            Ok(_) => {
                let path = PathParts { rooted: false, parts: segments };
                match portable_path(path) {
                    Ok(_) => Ok(path),
                    Err(e) => Err(ImportError::Portable(e)),
                }
            },
        }
    }
}

fn holds_char(s: &str, c: char) -> (r: bool)
    ensures
        r == s@.contains(c),
{
    let chars = chars_of(s);
    let mut i: usize = 0;
    while i < chars.len()
        invariant
            i <= chars.len(),
            chars@ == s@,
            forall|j: int| 0 <= j < i ==> #[trigger] chars@[j] != c,
        decreases chars.len() - i,
    {
        if chars[i] == c {
            return true;
        }
        i += 1;
    }
    false
}

/// Makes the path that names lead to.
pub fn import_path_of(segments: &Vec<String>) -> (r: Result<FilePath, ImportError>)
    ensures
        match r {
            Ok(path) => path_of_names(texts(segments@)) == Ok::<PathParts, ImportError>(path@),
            Err(e) => path_of_names(texts(segments@)) == Err::<PathParts, ImportError>(e),
        },
{
    let ghost all = texts(segments@);
    assert(all.len() == segments@.len());
    if segments.len() < 2 {
        return Err(ImportError::TooShort);
    }
    let mut i: usize = 0;
    while i < segments.len()
        invariant
            i <= segments.len(),
            all == texts(segments@),
            all.len() >= 2,
            segments_good(all, 0) == segments_good(all, i as int),
        decreases segments.len() - i,
    {
        assert(all[i as int] == segments@[i as int]@);
        let segment = &segments[i];
        let bare = trim(segment);
        if bare.as_str().is_empty() || same(segment, ".") || same(segment, "..") || holds_char(segment, '/') || holds_char(
            segment,
            '\\',
        ) {
            return Err(ImportError::Segment(i));
        }
        i += 1;
    }
    let path = FilePath::relative(clone_texts(segments));
    assert(path@ == (PathParts { rooted: false, parts: all }));
    match validate_relative_portable_path(&path) {
        Ok(_) => Ok(path),
        Err(e) => Err(ImportError::Portable(e)),
    }
}

/// The suffixes that go with a file's content, in the order in which they are tried.
pub open spec fn known_suffixes() -> Seq<Seq<char>> {
    seq![
        ".server.luau"@,
        ".server.lua"@,
        ".client.luau"@,
        ".client.lua"@,
        ".plugin.luau"@,
        ".plugin.lua"@,
        ".model.renium.jsonc"@,
        ".model.json"@,
        ".project.jsonc"@,
        ".project.json"@,
    ]
}

/// The first of the known suffixes at or after the `i`th that a name ends in.
pub open spec fn known_suffix(name: Seq<char>, i: int) -> Option<Seq<char>>
    decreases known_suffixes().len() - i,
{
    if i < 0 || i >= known_suffixes().len() {
        None
    } else if ends_in(name, known_suffixes()[i]) {
        Some(known_suffixes()[i])
    } else {
        known_suffix(name, i + 1)
    }
}

/// What a file's name gives to the name of a copy: what follows a script's name, a known suffix, or the
/// extension.
pub open spec fn suffix_of(name: Seq<char>, script: ScriptName) -> Option<Seq<char>> {
    match script {
        ScriptName::Directory => Some(name.skip(4)),
        ScriptName::Named(stem) => Some(name.skip(stem@.len() as int)),
        ScriptName::NotAScript => match known_suffix(name, 0) {
            Some(suffix) => Some(suffix),
            None => match extension_of(name) {
                Some(extension) => Some("."@ + extension),
                None => None,
            },
        },
    }
}

/// Finds what a file's name gives to the name of a copy. A script's name comes first in its file's name,
/// and a script that stands for its directory is called `init`.
pub fn import_source_suffix(name: &str, script: &ScriptName) -> (r: Option<String>)
    requires
        match *script {
            ScriptName::Directory => name@.len() >= 4,
            ScriptName::Named(stem) => name@.len() >= stem@.len(),
            ScriptName::NotAScript => true,
        },
    ensures
        opt_text(r) == suffix_of(name@, *script),
{
    let chars = chars_of(name);
    match script {
        ScriptName::Directory => {
            let rest = text_from(&chars, 4, chars.len());
            assert(rest@ =~= name@.skip(4));
            return Some(rest);
        },
        ScriptName::Named(stem) => {
            let count: usize = chars_of(stem).len();
            let rest = text_from(&chars, count, chars.len());
            assert(rest@ =~= name@.skip(stem@.len() as int));
            return Some(rest);
        },
        ScriptName::NotAScript => {},
    }
    let ghost all = known_suffixes();
    let tried: [&'static str; 10] = [
        ".server.luau",
        ".server.lua",
        ".client.luau",
        ".client.lua",
        ".plugin.luau",
        ".plugin.lua",
        ".model.renium.jsonc",
        ".model.json",
        ".project.jsonc",
        ".project.json",
    ];
    let mut i: usize = 0;
    while i < 10
        invariant
            i <= 10,
            all == known_suffixes(),
            all.len() == 10,
            tried@.len() == 10,
            forall|k: int| 0 <= k < 10 ==> (#[trigger] tried@[k])@ == all[k],
            known_suffix(name@, 0) == known_suffix(name@, i as int),
            suffix_of(name@, *script) == match known_suffix(name@, 0) {
                Some(suffix) => Some(suffix),
                None => match extension_of(name@) {
                    Some(extension) => Some("."@ + extension),
                    None => None,
                },
            },
        decreases 10 - i,
    {
        let suffix = tried[i];
        assert(tried@[i as int]@ == all[i as int]);
        if ends_with_ignore_ascii_case(name, suffix) {
            return Some(suffix.to_owned());
        }
        i += 1;
    }
    let (_, extension) = split_extension(name);
    match extension {
        Some(extension) => Some(joined(".", &extension)),
        None => None,
    }
}

/// The place of an import below what resolves a target: a file that is copied to a place without an
/// extension gives its own.
pub open spec fn import_place(m: ResolutionModel, is_file: bool, suffix: Option<Seq<char>>) -> Result<PathParts, ImportError> {
    if m.owner == OwnerKind::Adapter {
        Err(ImportError::Adapter)
    } else if is_file && extension_of(last_name(m.path)) is None {
        match suffix {
            None => Err(ImportError::NoExtension),
            Some(suffix) => if last_name(m.path).len() == 0 {
                Err(ImportError::NoName)
            } else {
                Ok(
                    PathParts {
                        rooted: m.path.rooted,
                        parts: m.path.parts.drop_last().push(last_name(m.path) + suffix),
                    },
                )
            },
        }
    } else {
        Ok(m.path)
    }
}

/// Finds the place of an import below what resolves a target.
pub fn import_path_json_destination(resolution: &ProjectWriteResolution, is_file: bool, suffix: &Option<String>) -> (r: Result<
    FilePath,
    ImportError,
>)
    ensures
        match r {
            Ok(path) => import_place(resolution@, is_file, opt_text(*suffix)) == Ok::<PathParts, ImportError>(path@),
            Err(e) => import_place(resolution@, is_file, opt_text(*suffix)) == Err::<PathParts, ImportError>(e),
        },
{
    if resolution.owner == OwnerKind::Adapter {
        return Err(ImportError::Adapter);
    }
    let name = resolution.path.file_name();
    let (_, extension) = split_extension(&name);
    if is_file && extension.is_none() {
        match suffix {
            None => Err(ImportError::NoExtension),
            Some(suffix) => {
                if name.as_str().is_empty() {
                    return Err(ImportError::NoName);
                }
                match resolution.path.parent() {
                    Some(parent) => Ok(parent.child(&joined(&name, suffix))),
                    None => Err(ImportError::NoName),
                }
            },
        }
    } else {
        Ok(resolution.path.copy())
    }
}

/// What is done with a file that is imported.
#[derive(PartialEq, Eq, Structural, Clone, Copy, Debug)]
pub enum ImportAction {
    Create,
    Overwrite,
    Unchanged,
}

/// What is done with a file, by what stands at its place.
pub open spec fn import_action(bytes: Seq<u8>, present: Option<Seq<u8>>) -> ImportAction {
    match present {
        None => ImportAction::Create,
        Some(present) => if present == bytes {
            ImportAction::Unchanged
        } else {
            ImportAction::Overwrite
        },
    }
}

/// A file that is imported, with its place and what stands there.
pub struct ImportFile {
    pub destination: FilePath,
    pub bytes: Vec<u8>,
    pub present: Option<Vec<u8>>,
}

pub open spec fn action_of(file: ImportFile) -> ImportAction {
    import_action(
        file.bytes@,
        match file.present {
            Some(present) => Some(present@),
            None => None,
        },
    )
}

/// Which of the first `n` files are written.
pub open spec fn written(files: Seq<ImportFile>, n: nat) -> Seq<usize>
    decreases n,
{
    if n == 0 {
        Seq::empty()
    } else {
        let before = written(files, (n - 1) as nat);
        if action_of(files[n - 1]) == ImportAction::Unchanged {
            before
        } else {
            before.push((n - 1) as usize)
        }
    }
}

/// What an import does with its files, and which of them are written.
pub struct PreparedImportPaths {
    pub actions: Vec<ImportAction>,
    pub writes: Vec<usize>,
}

fn equal_bytes(a: &Vec<u8>, b: &Vec<u8>) -> (r: bool)
    ensures
        r == (a@ == b@),
{
    if a.len() != b.len() {
        return false;
    }
    let mut i: usize = 0;
    while i < a.len()
        invariant
            i <= a.len(),
            a@.len() == b@.len(),
            forall|j: int| 0 <= j < i ==> a@[j] == #[trigger] b@[j],
        decreases a.len() - i,
    {
        if a[i] != b[i] {
            assert(a@[i as int] != b@[i as int]);
            return false;
        }
        i += 1;
    }
    assert(a@ =~= b@);
    true
}

/// Decides what an import does with its files.
pub fn prepare_import_path_files(files: &Vec<ImportFile>) -> (r: PreparedImportPaths)
    ensures
        r.actions@ == Seq::new(files@.len(), |i: int| action_of(files@[i])),
        r.writes@ == written(files@, files@.len()),
{
    let mut actions: Vec<ImportAction> = Vec::new();
    let mut writes: Vec<usize> = Vec::new();
    let mut i: usize = 0;
    while i < files.len()
        invariant
            i <= files.len(),
            actions@ =~= Seq::new(i as nat, |k: int| action_of(files@[k])),
            writes@ == written(files@, i as nat),
        decreases files.len() - i,
    {
        let action = match &files[i].present {
            None => ImportAction::Create,
            Some(present) => if equal_bytes(present, &files[i].bytes) {
                ImportAction::Unchanged
            } else {
                ImportAction::Overwrite
            },
        };
        assert(action == action_of(files@[i as int]));
        actions.push(action);
        if action != ImportAction::Unchanged {
            writes.push(i);
        }
        i += 1;
    }
    PreparedImportPaths { actions, writes }
}

/// A file that is already in place is not written again.
pub proof fn law_unchanged_files_are_not_written(files: Seq<ImportFile>, n: nat, i: int)
    requires
        n <= files.len() <= usize::MAX,
        0 <= i < n,
    ensures
        written(files, n).contains(i as usize) <==> action_of(files[i]) != ImportAction::Unchanged,
    decreases n,
{
    let before = written(files, (n - 1) as nat);
    lemma_written_below(files, (n - 1) as nat);
    if i < n - 1 {
        law_unchanged_files_are_not_written(files, (n - 1) as nat, i);
        if action_of(files[n - 1]) != ImportAction::Unchanged {
            let after = before.push((n - 1) as usize);
            if before.contains(i as usize) {
                let k = choose|k: int| 0 <= k < before.len() && before[k] == i as usize;
                assert(after[k] == i as usize);
            }
            if after.contains(i as usize) {
                let k = choose|k: int| 0 <= k < after.len() && after[k] == i as usize;
                assert(k < before.len());
                assert(before[k] == i as usize);
            }
        }
    } else {
        if action_of(files[i]) != ImportAction::Unchanged {
            let after = before.push(i as usize);
            assert(after[before.len() as int] == i as usize);
        } else if before.contains(i as usize) {
            let k = choose|k: int| 0 <= k < before.len() && before[k] == i as usize;
            assert(before[k] < n - 1);
        }
    }
}

proof fn lemma_written_below(files: Seq<ImportFile>, n: nat)
    requires
        n <= files.len() <= usize::MAX,
    ensures
        forall|k: int| 0 <= k < written(files, n).len() ==> (#[trigger] written(files, n)[k]) < n,
    decreases n,
{
    if n > 0 {
        lemma_written_below(files, (n - 1) as nat);
        let before = written(files, (n - 1) as nat);
        let after = written(files, n);
        assert forall|k: int| 0 <= k < after.len() implies (#[trigger] after[k]) < n by {
            if k < before.len() {
                assert(after[k] == before[k]);
            }
        }
    }
}

/// Where files below a source go, each seen from the source.
pub fn import_places(destination: &FilePath, files: &Vec<FilePath>) -> (r: Vec<FilePath>)
    ensures
        r@.len() == files@.len(),
        forall|i: int| 0 <= i < r@.len() ==> (#[trigger] r@[i])@ == joined_path(destination@, files@[i]@),
{
    let mut out: Vec<FilePath> = Vec::new();
    let mut i: usize = 0;
    while i < files.len()
        invariant
            i <= files.len(),
            out@.len() == i,
            forall|k: int| 0 <= k < i ==> (#[trigger] out@[k])@ == joined_path(destination@, files@[k]@),
        decreases files.len() - i,
    {
        out.push(destination.join(&files[i]));
        i += 1;
    }
    out
}

/// Where a single file goes: into a directory under its own name, or to the place itself.
pub fn import_place_of_file(destination: &FilePath, into_directory: bool, name: &str) -> (r: FilePath)
    ensures
        r@ == if into_directory {
            PathParts { rooted: destination@.rooted, parts: destination@.parts.push(name@) }
        } else {
            destination@
        },
{
    if into_directory {
        destination.child(name)
    } else {
        destination.copy()
    }
}

/// What is known of the target of an imported file.
pub struct ImportTarget {
    pub declarative: bool,
    pub owner: OwnerKind,
    pub source_root: FilePath,
}

/// What is wrong with the place of an imported file, by what it would stand for.
pub open spec fn import_checked(
    transforms: Seq<TransformModel>,
    destination: PathParts,
    target: Seq<Seq<char>>,
    facts: ImportTarget,
) -> Result<(), ImportError> {
    if target.len() == 0 {
        Err(ImportError::NoInstance)
    } else if made_by_rule(transforms, target) {
        Err(ImportError::Transformed)
    } else if facts.declarative {
        Err(ImportError::Declarative)
    } else if facts.owner == OwnerKind::Adapter {
        Err(ImportError::Adapter)
    } else if !path_starts_with(destination, facts.source_root@) {
        Err(ImportError::Shadowed)
    } else {
        Ok(())
    }
}

/// The target of an imported file: the names on its staged path, the last one as that of a script.
pub fn import_target(segments: &Vec<String>, script: &ScriptName) -> (r: Vec<String>)
    ensures
        texts(r@) == staged_target(texts(segments@), *script),
{
    assert(texts(segments@).len() == segments@.len());
    if segments.len() == 0 {
        return clone_texts(segments);
    }
    let count: usize = segments.len();
    match script {
        ScriptName::NotAScript => clone_texts(segments),
        ScriptName::Directory => {
            let r = subtexts(segments, 0, count - 1);
            assert(texts(segments@).subrange(0, count - 1) =~= texts(segments@).drop_last());
            r
        },
        ScriptName::Named(name) => {
            let mut r = subtexts(segments, 0, count - 1);
            assert(texts(segments@).subrange(0, count - 1) =~= texts(segments@).drop_last());
            let last = name.clone();
            proof {
                lemma_texts_push(r@, last);
            }
            r.push(last);
            r
        },
    }
}

/// Checks the place of an imported file against one target that it would stand for.
pub fn validate_import_target(stage: &ProjectionStage, destination: &FilePath, target: &Vec<String>, facts: &ImportTarget) -> (r: Result<
    (),
    ImportError,
>)
    ensures
        r == import_checked(views(stage.transforms@), destination@, texts(target@), *facts),
{
    assert(texts(target@).len() == target@.len());
    if target.len() == 0 {
        return Err(ImportError::NoInstance);
    }
    if stage.target_is_transformed(target) {
        assert(made_by_rule(views(stage.transforms@), texts(target@)));
        return Err(ImportError::Transformed);
    }
    assert(!made_by_rule(views(stage.transforms@), texts(target@)));
    if facts.declarative {
        return Err(ImportError::Declarative);
    }
    if facts.owner == OwnerKind::Adapter {
        return Err(ImportError::Adapter);
    }
    if !destination.starts_with(&facts.source_root) {
        return Err(ImportError::Shadowed);
    }
    Ok(())
}

/// The targets from the `i`th on are checked in turn.
pub open spec fn imports_checked(
    transforms: Seq<TransformModel>,
    destination: PathParts,
    targets: Seq<Seq<Seq<char>>>,
    facts: Seq<ImportTarget>,
    i: int,
) -> Result<(), ImportError>
    decreases targets.len() - i,
{
    if i < 0 || i >= targets.len() {
        Ok(())
    } else {
        match import_checked(transforms, destination, targets[i], facts[i]) {
            Ok(_) => imports_checked(transforms, destination, targets, facts, i + 1),
            Err(e) => Err(e),
        }
    }
}

/// Checks the place of an imported file against every target that it would stand for; there has to be
/// one.
pub fn validate_import_destination_ownership(
    stage: &ProjectionStage,
    destination: &FilePath,
    targets: &Vec<Vec<String>>,
    facts: &Vec<ImportTarget>,
) -> (r: Result<(), ImportError>)
    requires
        targets@.len() == facts@.len(),
    ensures
        r == if targets@.len() == 0 {
            Err(ImportError::Unowned)
        } else {
            imports_checked(
                views(stage.transforms@),
                destination@,
                Seq::new(targets@.len(), |i: int| texts(targets@[i]@)),
                facts@,
                0,
            )
        },
{
    if targets.len() == 0 {
        return Err(ImportError::Unowned);
    }
    let ghost all = Seq::new(targets@.len(), |i: int| texts(targets@[i]@));
    let mut i: usize = 0;
    while i < targets.len()
        invariant
            i <= targets.len(),
            targets@.len() == facts@.len(),
            targets@.len() > 0,
            all == Seq::new(targets@.len(), |i: int| texts(targets@[i]@)),
            imports_checked(views(stage.transforms@), destination@, all, facts@, 0) == imports_checked(
                views(stage.transforms@),
                destination@,
                all,
                facts@,
                i as int,
            ),
        decreases targets.len() - i,
    {
        match validate_import_target(stage, destination, &targets[i], &facts[i]) {
            Ok(_) => {},
            Err(e) => {
                return Err(e);
            },
        }
        i += 1;
    }
    Ok(())
}

/// Whether a syncback that changes files may go on: it was reviewed, or it only shows what it would do.
pub fn syncback_may_run(dry_run: bool, list: bool, yes: bool) -> (r: bool)
    ensures
        r == (dry_run || list || yes),
{
    dry_run || list || yes
}

} // verus!
