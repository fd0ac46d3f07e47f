//! Where a command finds its project and the sources of it.
use vstd::prelude::*;

use crate::paths::{portable_path, validate_relative_portable_path, FilePath, PathParts, PortableError};
use crate::project::{SourceKind, PROJECT_FILE_NAME, PROJECT_JSON_FILE_NAME};
use crate::text::{holds_text, same, texts};

verus! {

broadcast use vstd::seq_lib::group_seq_properties;

/// The directory of sources that is meant where none is named.
pub open spec fn is_default_source(path: PathParts) -> bool {
    path == (PathParts { rooted: false, parts: seq!["src"@] })
}

fn names_default_source(path: &FilePath) -> (r: bool)
    ensures
        r == is_default_source(path@),
{
    if path.rooted || path.parts.len() != 1 {
        assert(path@.parts.len() == path.parts@.len());
        return false;
    }
    assert(path@.parts[0] == path.parts@[0]@);
    if same(&path.parts[0], "src") {
        assert(path@.parts =~= seq!["src"@]);
        true
    } else {
        false
    }
}

/// What has to be found out before the layout of a project is known.
#[derive(PartialEq, Eq, Structural, Clone, Copy, Debug)]
pub enum LayoutQuestion {
    /// Nothing: the given directories are the layout.
    Settled,
    /// The place of an experience, from the given directory.
    Place,
    /// The project at the given directory alone.
    ProjectAt,
    /// The project that was named, or that holds the given directory.
    Project,
}

/// Decides what has to be found out, where a project may have been named and directories are given.
pub fn layout_question(has_project: bool, project_root: &FilePath, source_root: &FilePath) -> (r: LayoutQuestion)
    ensures
        r == if has_project {
            LayoutQuestion::Project
        } else if !is_default_source(source_root@) {
            LayoutQuestion::Settled
        } else if project_root.rooted {
            LayoutQuestion::ProjectAt
        } else {
            LayoutQuestion::Place
        },
{
    if has_project {
        LayoutQuestion::Project
    } else if !names_default_source(source_root) {
        LayoutQuestion::Settled
    } else if project_root.rooted {
        LayoutQuestion::ProjectAt
    } else {
        LayoutQuestion::Place
    }
}

/// Whether a project that was found counts: one found from an absolute directory has to stand there.
pub fn project_counts(question: LayoutQuestion, requested: &FilePath, found: &Option<FilePath>) -> (r: bool)
    ensures
        r == (question != LayoutQuestion::ProjectAt || (*found is Some && (*found)->0@ == requested@)),
{
    if question != LayoutQuestion::ProjectAt {
        return true;
    }
    match found {
        Some(found) => found.is_same(requested),
        None => false,
    }
}

/// The sources of a project: those that it names, unless others were given.
pub fn layout_source(given: &FilePath, named: &FilePath) -> (r: Result<FilePath, PortableError>)
    ensures
        if !is_default_source(given@) {
            r is Ok && r->Ok_0@ == given@
        } else {
            match portable_path(named@) {
                Ok(_) => r is Ok && r->Ok_0@ == named@,
                Err(e) => r is Err && r->Err_0 == e,
            }
        },
{
    if !names_default_source(given) {
        return Ok(given.copy());
    }
    match validate_relative_portable_path(named) {
        Ok(_) => Ok(named.copy()),
        Err(e) => Err(e),
    }
}

/// What is done to a directory that was named as a project.
#[derive(PartialEq, Eq, Structural, Clone, Copy, Debug)]
pub enum RootStep {
    Leave,
    /// Make the directory, and a project in it.
    MakeBoth,
    /// Make a project in it.
    MakeProject,
}

/// The project that is made where there is none.
pub const NEW_PROJECT: &'static str = "{\n  \"schemaVersion\": 1\n}\n";

/// Some of the names in a directory are those of a project's file or of the directories that a project
/// keeps.
pub open spec fn names_hold_project(names: Seq<Seq<char>>) -> bool {
    names.contains(PROJECT_FILE_NAME@) || names.contains(PROJECT_JSON_FILE_NAME@) || names.contains("src"@)
        || names.contains("instances"@) || names.contains("places"@)
}

/// Whether a directory with some names in it holds a project or parts of one.
pub fn holds_project(names: &Vec<String>) -> (r: bool)
    ensures
        r == names_hold_project(texts(names@)),
{
    holds_text(names, PROJECT_FILE_NAME) || holds_text(names, PROJECT_JSON_FILE_NAME) || holds_text(names, "src")
        || holds_text(names, "instances") || holds_text(names, "places")
}

/// Decides what is done to a directory that was named as a project: it becomes one, unless it is the
/// current one, is no directory, or holds a project or parts of one. `names` are those in it.
pub fn explicit_root_step(is_current: bool, kind: SourceKind, names: &Vec<String>) -> (r: RootStep)
    ensures
        r == if is_current {
            RootStep::Leave
        } else if kind == SourceKind::Missing {
            RootStep::MakeBoth
        } else if kind != SourceKind::Directory || names_hold_project(texts(names@)) {
            RootStep::Leave
        } else {
            RootStep::MakeProject
        },
{
    if is_current {
        RootStep::Leave
    } else if kind == SourceKind::Missing {
        RootStep::MakeBoth
    } else if kind != SourceKind::Directory || holds_project(names) {
        RootStep::Leave
    } else {
        RootStep::MakeProject
    }
}

} // verus!
