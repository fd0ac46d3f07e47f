//! What the commands on adapters and on the form of a project file decide and report.
use vstd::prelude::*;

use crate::json::{law_same_json_reflexive, same_json};
use crate::jsonc::{
    format_jsonc, formatted, json_pretty, jsonc_value, parse_jsonc_value, pretty_json, text_tokens, JsoncError, ParseError,
};
use crate::jsonc_format::{end_closed, law_formatting_keeps_the_value, law_formatting_settles};
use crate::links::opt_text;
use crate::paths::{FilePath, PathParts};
use crate::project::LoadedProject;
use crate::projection::{compile_projection, compiled};
use crate::text::{contains_part, decimal, joined, occurs, same, to_decimal};

verus! {

broadcast use vstd::seq_lib::group_seq_properties;

pub struct AdaptersArgs {
    pub command: AdaptersCommand,
}

pub enum AdaptersCommand {
    Validate(AdapterProjectArgs),
    Build(AdapterBuildArgs),
    Syncback(AdapterSyncbackArgs),
    Watch(AdapterWatchArgs),
}

pub struct AdapterProjectArgs {
    pub project: Option<FilePath>,
}

/// `check` asks whether the outcome is what stands there and writes nothing.
pub struct AdapterBuildArgs {
    pub project: Option<FilePath>,
    pub check: bool,
}

/// `preview` lists what would be written.
pub struct AdapterSyncbackArgs {
    pub project: Option<FilePath>,
    pub check: bool,
    pub preview: bool,
}

pub struct AdapterWatchArgs {
    pub project: Option<FilePath>,
    pub interval_ms: u64,
}

/// The size of a project that was checked.
pub struct AdapterCounts {
    pub entries: usize,
    pub adapters: usize,
    pub mounts: usize,
}

/// Counts what a project says.
pub fn count_adapters(loaded: &LoadedProject) -> (r: AdapterCounts)
    ensures
        r.entries == compiled(loaded.project).len(),
        r.adapters == loaded.project.adapters@.len(),
        r.mounts == loaded.project.mounts@.len(),
{
    let entries = compile_projection(&loaded.project);
    assert(crate::order::views(entries@).len() == entries@.len());
    AdapterCounts { entries: entries.len(), adapters: loaded.project.adapters.len(), mounts: loaded.project.mounts.len() }
}

/// A file that carrying adapters back would write.
pub struct SyncbackWrite {
    pub path: FilePath,
    /// It is the baseline, not the source of an adapter.
    pub baseline: bool,
}

#[verifier::ext_equal]
pub struct WriteModel {
    pub path: PathParts,
    pub baseline: bool,
}

impl View for SyncbackWrite {
    type V = WriteModel;

    open spec fn view(&self) -> WriteModel {
        WriteModel { path: self.path@, baseline: self.baseline }
    }
}

pub open spec fn write_views(v: Seq<SyncbackWrite>) -> Seq<WriteModel> {
    Seq::new(v.len(), |i: int| v[i]@)
}

/// What would be written: the sources, and then the baseline where it changes.
pub open spec fn syncback_writes(sources: Seq<FilePath>, changed: bool, baseline: PathParts) -> Seq<WriteModel> {
    let list = Seq::new(sources.len(), |i: int| WriteModel { path: sources[i]@, baseline: false });
    if changed {
        list.push(WriteModel { path: baseline, baseline: true })
    } else {
        list
    }
}

/// Lists what carrying adapters back would write.
pub fn preview_syncback(sources: &Vec<FilePath>, changed: bool, baseline: &FilePath) -> (r: Vec<SyncbackWrite>)
    ensures
        write_views(r@) == syncback_writes(sources@, changed, baseline@),
{
    let mut out: Vec<SyncbackWrite> = Vec::new();
    let mut i: usize = 0;
    while i < sources.len()
        invariant
            i <= sources.len(),
            out@.len() == i,
            forall|j: int| 0 <= j < i ==> #[trigger] out@[j]@ == (WriteModel { path: sources@[j]@, baseline: false }),
        decreases sources.len() - i,
    {
        out.push(SyncbackWrite { path: sources[i].copy(), baseline: false });
        i += 1;
    }
    if changed {
        out.push(SyncbackWrite { path: baseline.copy(), baseline: true });
    }
    assert(write_views(out@) =~= syncback_writes(sources@, changed, baseline@));
    out
}

/// What is said once adapters were carried back or checked.
pub open spec fn syncback_summary(check: bool, changed: nat) -> Seq<char> {
    (if check {
        "Checked "@
    } else {
        "Updated "@
    }) + decimal(changed) + " adapter source"@ + (if changed == 1 {
        Seq::<char>::empty()
    } else {
        "s"@
    })
}

/// Says how many sources were updated or checked.
pub fn syncback_text(check: bool, changed: u64) -> (r: String)
    ensures
        r@ == syncback_summary(check, changed as nat),
{
    let verb = if check {
        "Checked "
    } else {
        "Updated "
    };
    let number = to_decimal(changed as u128);
    let a = joined(verb, &number);
    let b = joined(&a, " adapter source");
    if changed == 1 {
        assert(b@ + Seq::<char>::empty() =~= b@);
        b
    } else {
        joined(&b, "s")
    }
}

/// The text has what may be a comment.
pub open spec fn may_have_comments(text: Seq<char>) -> bool {
    occurs(text, "//"@) || occurs(text, "/*"@)
}

/// Formats the text of a project whose comments have to stay; without comments there is none, and the
/// value is written anew.
pub fn format_with_comments(text: &str) -> (r: Result<Option<String>, JsoncError>)
    ensures
        if !may_have_comments(text@) {
            r is Ok && r->Ok_0 is None
        } else {
            match text_tokens(text@) {
                Err(e) => r is Err && r->Err_0 == e,
                Ok(tokens) => r is Ok && opt_text(r->Ok_0) == Some(formatted(tokens)),
            }
        },
{
    if !contains_part(text, "//") && !contains_part(text, "/*") {
        return Ok(None);
    }
    match format_jsonc(text) {
        Ok(s) => Ok(Some(s)),
        Err(e) => Err(e),
    }
}

/// What becomes of a project file that is formatted.
pub enum FormatStep {
    /// The formatted text is written.
    Write(String),
    /// The file is formatted; nothing is written.
    Formatted,
}

/// Why a project file is not formatted.
#[derive(PartialEq, Eq, Structural, Clone, Copy, Debug)]
pub enum FormatError {
    /// The file can not be read.
    Parse(ParseError),
    /// The formatted text can not be read.
    Reread(ParseError),
    /// Formatting would change what the file says.
    WouldChange,
    /// A check finds the file not formatted.
    NotFormatted,
}

/// The formatted text of a project file: its tokens on lines of their own where it may have comments, and
/// else what it says, written anew.
pub open spec fn project_text(text: Seq<char>) -> Result<Seq<char>, FormatError> {
    match jsonc_value(text) {
        Err(e) => Err(FormatError::Parse(e)),
        Ok(value) => if may_have_comments(text) {
            let new = formatted(text_tokens(text)->Ok_0);
            match jsonc_value(new) {
                Err(e) => Err(FormatError::Reread(e)),
                Ok(reread) => if same_json(reread, value) {
                    Ok(new)
                } else {
                    Err(FormatError::WouldChange)
                },
            }
        } else {
            Ok(json_pretty(value) + "\n"@)
        },
    }
}

/// Formatting a text with comments goes well, keeps what it says, and settles.
pub open spec fn formats_well(text: Seq<char>) -> bool {
    match project_text(text) {
        Ok(new) => {
            &&& jsonc_value(new) == jsonc_value(text)
            &&& may_have_comments(new) ==> project_text(new) == Ok::<Seq<char>, FormatError>(new)
        },
        Err(_) => false,
    }
}

/// Formats the text of a project file, or checks that it is formatted. A file with comments that can be
/// read is formatted well.
pub fn format_project(text: &str, check: bool) -> (r: Result<FormatStep, FormatError>)
    ensures
        jsonc_value(text@) is Ok && may_have_comments(text@) ==> formats_well(text@),
        match project_text(text@) {
            Err(e) => r is Err && r->Err_0 == e,
            Ok(new) => if !check {
                r is Ok && r->Ok_0 is Write && r->Ok_0->Write_0@ == new
            } else if text@ == new {
                r is Ok && r->Ok_0 is Formatted
            } else {
                r is Err && r->Err_0 == FormatError::NotFormatted
            },
        },
{
    let value = match parse_jsonc_value(text) {
        Ok(value) => value,
        Err(e) => {
            return Err(FormatError::Parse(e));
        },
    };
    proof {
        if may_have_comments(text@) {
            law_project_format_settles(text@);
        }
    }
    let new = match format_with_comments(text) {
        Ok(Some(new)) => {
            match parse_jsonc_value(&new) {
                Ok(reread) => {
                    if !reread.same(&value) {
                        return Err(FormatError::WouldChange);
                    }
                },
                Err(e) => {
                    return Err(FormatError::Reread(e));
                },
            }
            new
        },
        Ok(None) => {
            let pretty = pretty_json(&value);
            joined(&pretty, "\n")
        },
        Err(e) => {
            return Err(FormatError::Parse(ParseError::Tokens(e)));
        },
    };
    if !check {
        Ok(FormatStep::Write(new))
    } else if same(text, &new) {
        Ok(FormatStep::Formatted)
    } else {
        Err(FormatError::NotFormatted)
    }
}

/// A project file with comments that can be read and does not end in an open string, as none that
/// `parse_jsonc_value` reads does, is formatted well.
pub proof fn law_project_format_settles(text: Seq<char>)
    requires
        jsonc_value(text) is Ok,
        may_have_comments(text),
        end_closed(text_tokens(text)->Ok_0),
    ensures
        formats_well(text),
{
    law_formatting_keeps_the_value(text);
    law_formatting_settles(text);
    law_same_json_reflexive(jsonc_value(text)->Ok_0);
}

} // verus!
