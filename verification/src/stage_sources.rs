//! Which source files a projection is needed for, and what generated content becomes.
use vstd::prelude::*;

use crate::json::{entries, lemma_entries_push, Json, JsonModel, Member};
use crate::paths::{slash_text, FilePath};
use crate::project::SyncRule;
use crate::rules::{are_ignore_hits, are_taken, path_ignored, path_is_ignored, rule_answers, IgnoreError};
use crate::stage_document::{class_fields, FieldsModel, StageFields};
use crate::text::texts;

verus! {

broadcast use vstd::seq_lib::group_seq_properties;

/// Whether a rule from the `i`th on takes a file: they are asked in order up to the first that does, and
/// one before it that can not be used is named.
pub open spec fn some_rule_takes(takes: Seq<Option<bool>>, i: int) -> Result<bool, usize>
    decreases takes.len() - i,
{
    if i < 0 || i >= takes.len() {
        Ok(false)
    } else {
        match takes[i] {
            None => Err(i as usize),
            Some(true) => Ok(true),
            Some(false) => some_rule_takes(takes, i + 1),
        }
    }
}

/// Why it can not be said whether a projection is needed: a rule or an ignore line that can not be used
/// on a file.
#[derive(PartialEq, Eq, Structural, Clone, Copy, Debug)]
pub enum NeedError {
    Rule { file: usize, rule: usize },
    Ignore { file: usize, error: IgnoreError },
}

/// What rules and ignore lines answered for a file.
pub struct FileAnswers {
    pub takes: Vec<Option<bool>>,
    pub ignored: Result<bool, IgnoreError>,
}

/// Whether a projection is needed for the files from the `i`th on.
pub open spec fn files_need(answers: Seq<FileAnswers>, i: int) -> Result<bool, NeedError>
    decreases answers.len() - i,
{
    if i < 0 || i >= answers.len() {
        Ok(false)
    } else {
        match some_rule_takes(answers[i].takes@, 0) {
            Err(rule) => Err(NeedError::Rule { file: i as usize, rule }),
            Ok(true) => Ok(true),
            Ok(false) => match answers[i].ignored {
                Err(error) => Err(NeedError::Ignore { file: i as usize, error }),
                Ok(true) => Ok(true),
                Ok(false) => files_need(answers, i + 1),
            },
        }
    }
}

fn any_rule_takes(takes: &Vec<Option<bool>>) -> (r: Result<bool, usize>)
    ensures
        r == some_rule_takes(takes@, 0),
{
    let mut i: usize = 0;
    while i < takes.len()
        invariant
            i <= takes.len(),
            some_rule_takes(takes@, 0) == some_rule_takes(takes@, i as int),
        decreases takes.len() - i,
    {
        match takes[i] {
            None => {
                return Err(i);
            },
            Some(true) => {
                return Ok(true);
            },
            Some(false) => {},
        }
        i += 1;
    }
    Ok(false)
}

/// Whether a projection is needed for some files, given what rules and ignore lines answered.
pub fn files_need_stage(answers: &Vec<FileAnswers>) -> (r: Result<bool, NeedError>)
    ensures
        r == files_need(answers@, 0),
{
    let mut i: usize = 0;
    while i < answers.len()
        invariant
            i <= answers.len(),
            files_need(answers@, 0) == files_need(answers@, i as int),
        decreases answers.len() - i,
    {
        match any_rule_takes(&answers[i].takes) {
            Err(rule) => {
                return Err(NeedError::Rule { file: i, rule });
            },
            Ok(true) => {
                return Ok(true);
            },
            Ok(false) => {},
        }
        match answers[i].ignored {
            Err(error) => {
                return Err(NeedError::Ignore { file: i, error });
            },
            Ok(true) => {
                return Ok(true);
            },
            Ok(false) => {},
        }
        i += 1;
    }
    Ok(false)
}

/// A file of a source root: its path from there, and from the project.
pub struct SourceFile {
    pub relative: FilePath,
    pub from_project: FilePath,
}

/// What the rules and ignore lines of a project may answer for a file. Without ignore lines no file is
/// ignored.
pub open spec fn may_answer(rules: Seq<SyncRule>, lines: Seq<Seq<char>>, file: SourceFile, a: FileAnswers) -> bool {
    &&& are_taken(rules, slash_text(file.relative@), a.takes@)
    &&& if lines.len() == 0 {
        a.ignored == Ok::<bool, IgnoreError>(false)
    } else {
        exists|hits: Seq<Option<bool>>| #[trigger]
            are_ignore_hits(lines, slash_text(file.from_project@), hits) && a.ignored == path_ignored(
                file.from_project@.parts,
                lines,
                hits,
            )
    }
}

pub open spec fn may_answer_all(
    rules: Seq<SyncRule>,
    lines: Seq<Seq<char>>,
    files: Seq<SourceFile>,
    answers: Seq<FileAnswers>,
) -> bool {
    answers.len() == files.len() && forall|i: int|
        0 <= i < files.len() ==> may_answer(rules, lines, files[i], #[trigger] answers[i])
}

/// Whether the files of a source root need a projection: a rule takes one, or an ignore line. A source
/// root that is not a directory needs none, nor does a project without rules and ignore lines.
pub fn source_files_require_stage(
    rules: &Vec<SyncRule>,
    lines: &Vec<String>,
    root_is_directory: bool,
    files: &Vec<SourceFile>,
) -> (r: Result<bool, NeedError>)
    ensures
        if !root_is_directory || (rules@.len() == 0 && lines@.len() == 0) {
            r == Ok::<bool, NeedError>(false)
        } else {
            exists|answers: Seq<FileAnswers>| #[trigger]
                may_answer_all(rules@, texts(lines@), files@, answers) && r == files_need(answers, 0)
        },
{
    if !root_is_directory || (rules.len() == 0 && lines.len() == 0) {
        return Ok(false);
    }
    let ghost all = texts(lines@);
    let mut answers: Vec<FileAnswers> = Vec::new();
    let mut i: usize = 0;
    while i < files.len()
        invariant
            i <= files.len(),
            all == texts(lines@),
            answers@.len() == i,
            forall|j: int| 0 <= j < i ==> may_answer(rules@, all, files@[j], #[trigger] answers@[j]),
        decreases files.len() - i,
    {
        let file = &files[i];
        let text = file.relative.to_slash();
        let takes = rule_answers(rules, &text);
        let ignored = if lines.len() == 0 {
            Ok(false)
        } else {
            path_is_ignored(&file.from_project, lines)
        };
        let answer = FileAnswers { takes, ignored };
        assert(may_answer(rules@, all, files@[i as int], answer));
        answers.push(answer);
        i += 1;
    }
    assert(may_answer_all(rules@, all, files@, answers@));
    files_need_stage(&answers)
}

/// A file that some rule takes brings a projection about, whatever comes after it.
pub proof fn law_taken_file_needs_a_stage(answers: Seq<FileAnswers>, i: int)
    requires
        0 <= i < answers.len(),
        some_rule_takes(answers[i].takes@, 0) == Ok::<bool, usize>(true),
        forall|j: int|
            0 <= j < i ==> some_rule_takes((#[trigger] answers[j]).takes@, 0) is Ok && answers[j].ignored is Ok,
    ensures
        files_need(answers, 0) == Ok::<bool, NeedError>(true),
{
    lemma_need_reached(answers, 0, i);
}

proof fn lemma_need_reached(answers: Seq<FileAnswers>, k: int, i: int)
    requires
        0 <= k <= i < answers.len(),
        some_rule_takes(answers[i].takes@, 0) == Ok::<bool, usize>(true),
        forall|j: int|
            0 <= j < i ==> some_rule_takes((#[trigger] answers[j]).takes@, 0) is Ok && answers[j].ignored is Ok,
    ensures
        files_need(answers, k) == Ok::<bool, NeedError>(true),
    decreases i - k,
{
    if k < i {
        assert(some_rule_takes(answers[k].takes@, 0) is Ok);
        lemma_need_reached(answers, k + 1, i);
    }
}

/// What generated content is put into.
#[derive(PartialEq, Eq, Structural, Clone, Copy, Debug)]
pub enum GeneratedKind {
    /// A text as it is.
    Text,
    /// The entries of a table of translations.
    Localization,
    /// The source of a module.
    Module,
}

/// The class and the property that hold generated content.
pub open spec fn generated_model(kind: GeneratedKind, content: Seq<char>) -> FieldsModel {
    let (class_name, property) = match kind {
        GeneratedKind::Text => ("StringValue"@, "Value"@),
        GeneratedKind::Localization => ("LocalizationTable"@, "Contents"@),
        GeneratedKind::Module => ("ModuleScript"@, "Source"@),
    };
    FieldsModel { properties: Map::empty().insert(property, JsonModel::Text(content)), ..class_fields(class_name) }
}

/// The instance that generated content becomes.
pub fn generated_fields(kind: GeneratedKind, content: String) -> (r: StageFields)
    ensures
        r@ == generated_model(kind, content@),
{
    let (class_name, property) = match kind {
        GeneratedKind::Text => ("StringValue", "Value"),
        GeneratedKind::Localization => ("LocalizationTable", "Contents"),
        GeneratedKind::Module => ("ModuleScript", "Source"),
    };
    let mut fields = StageFields::of_class(class_name.to_owned());
    let ghost text = content@;
    let mut properties: Vec<Member> = Vec::new();
    let member = Member { key: property.to_owned(), value: Json::Text(content) };
    proof {
        assert(member.value.model() == JsonModel::Text(text));
        lemma_entries_push(properties@, member);
        assert(entries(properties@) =~= Map::empty());
    }
    properties.push(member);
    fields.properties = properties;
    fields
}

} // verus!
