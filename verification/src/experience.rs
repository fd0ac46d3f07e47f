//! Experiences of several places: which place a command is about.
use vstd::prelude::*;

use crate::links::{copy_opt, opt_text};
use crate::numbers::{i64_value, parse_i64};
use crate::paths::{path_starts_with, FilePath, PathParts};
use crate::project::{kind_at, FactModel, Files, SourceKind};
use crate::publish::{signed_decimal, to_signed_decimal};
use crate::text::{
    ascii_lower, cut, holds_text, join_texts, joined, joined_by, lemma_texts_push, same, split_once, texts, to_ascii_lower, trim, trimmed,
};

verus! {

broadcast use vstd::seq_lib::group_seq_properties;

/// The file that lists the places of an experience.
pub const EXPERIENCE_FILE: &'static str = "renium.experience.json";

/// A place as it is listed.
pub struct ExperienceEntry {
    pub alias: String,
    pub place_id: Option<i64>,
    pub name: Option<String>,
    pub root: FilePath,
}

/// A place of an experience.
pub struct ExperiencePlace {
    pub alias: String,
    pub place_id: Option<i64>,
    pub root: FilePath,
    pub experience_root: FilePath,
    pub game_id: Option<i64>,
    pub name: Option<String>,
}

#[verifier::ext_equal]
pub struct PlaceModel {
    pub alias: Seq<char>,
    pub place_id: Option<i64>,
    pub root: PathParts,
    pub experience_root: PathParts,
    pub game_id: Option<i64>,
    pub name: Option<Seq<char>>,
}

impl View for ExperiencePlace {
    type V = PlaceModel;

    open spec fn view(&self) -> PlaceModel {
        PlaceModel {
            alias: self.alias@,
            place_id: self.place_id,
            root: self.root@,
            experience_root: self.experience_root@,
            game_id: self.game_id,
            name: opt_text(self.name),
        }
    }
}

pub open spec fn places(v: Seq<ExperiencePlace>) -> Seq<PlaceModel> {
    Seq::new(v.len(), |i: int| v[i]@)
}

/// The directory at or above `dir` that holds the list of an experience.
pub open spec fn experience_above(files: Map<PathParts, FactModel>, dir: PathParts) -> Option<PathParts>
    decreases dir.parts.len(),
{
    if kind_at(files, PathParts { rooted: dir.rooted, parts: dir.parts.push(EXPERIENCE_FILE@) }) == SourceKind::File {
        Some(dir)
    } else if dir.parts.len() == 0 {
        None
    } else {
        experience_above(files, PathParts { rooted: dir.rooted, parts: dir.parts.drop_last() })
    }
}

/// Finds the directory of the experience that a path belongs to.
pub fn find_experience_root(files: &Files, start: &FilePath) -> (r: Option<FilePath>)
    ensures
        ({
            let from = if kind_at(files@, start@) == SourceKind::File && start@.parts.len() > 0 {
                PathParts { rooted: start@.rooted, parts: start@.parts.drop_last() }
            } else {
                start@
            };
            match r {
                Some(root) => experience_above(files@, from) == Some(root@),
                None => experience_above(files@, from) is None,
            }
        }),
{
    let mut current = start.copy();
    assert(start@.parts.len() == start.parts@.len());
    if files.kind(start) == SourceKind::File && start.parts.len() > 0 {
        match start.parent() {
            Some(parent) => {
                current = parent;
            },
            None => {},
        }
    }
    let ghost from = current@;
    loop
        invariant
            experience_above(files@, from) == experience_above(files@, current@),
            from == if kind_at(files@, start@) == SourceKind::File && start@.parts.len() > 0 {
                PathParts { rooted: start@.rooted, parts: start@.parts.drop_last() }
            } else {
                start@
            },
        decreases current@.parts.len(),
    {
        let listed = current.child(EXPERIENCE_FILE);
        if files.kind(&listed) == SourceKind::File {
            return Some(current);
        }
        match current.parent() {
            Some(parent) => {
                current = parent;
            },
            None => {
                return None;
            },
        }
    }
}

/// Why the list of an experience is refused.
#[derive(PartialEq, Eq, Structural, Clone, Copy, Debug)]
pub enum ExperienceError {
    /// A root that does not lead down from the experience.
    InvalidRoot(usize),
    /// A root where nothing stands.
    Unresolved(usize),
    /// A root that stands elsewhere.
    Outside(usize),
    NoPlaces,
}

pub open spec fn resolved_roots(v: Seq<Option<FilePath>>) -> Seq<Option<PathParts>> {
    Seq::new(
        v.len(),
        |i: int|
            match v[i] {
                Some(path) => Some(path@),
                None => None,
            },
    )
}

/// The place that an entry with a resolved root stands for, or what is wrong with it.
pub open spec fn place_of(
    root: PathParts,
    game_id: Option<i64>,
    entry: ExperienceEntry,
    resolved: Option<PathParts>,
    i: usize,
) -> Result<PlaceModel, ExperienceError> {
    if entry.root@.rooted || entry.root@.parts.contains(".."@) {
        Err(ExperienceError::InvalidRoot(i))
    } else {
        match resolved {
            None => Err(ExperienceError::Unresolved(i)),
            Some(place_root) => if place_root == root || !path_starts_with(place_root, root) {
                Err(ExperienceError::Outside(i))
            } else {
                Ok(
                    PlaceModel {
                        alias: entry.alias@,
                        place_id: entry.place_id,
                        root: place_root,
                        experience_root: root,
                        game_id,
                        name: opt_text(entry.name),
                    },
                )
            },
        }
    }
}

/// The first thing that is wrong with the entries from the `i`th on.
pub open spec fn entries_checked(
    root: PathParts,
    game_id: Option<i64>,
    entries: Seq<ExperienceEntry>,
    resolved: Seq<Option<PathParts>>,
    i: int,
) -> Result<(), ExperienceError>
    decreases entries.len() - i,
{
    if i < 0 || i >= entries.len() {
        Ok(())
    } else {
        match place_of(root, game_id, entries[i], resolved[i], i as usize) {
            Ok(_) => entries_checked(root, game_id, entries, resolved, i + 1),
            Err(e) => Err(e),
        }
    }
}

/// Reads the list of an experience, whose entries' roots have been resolved.
pub fn experience_places(
    root: &FilePath,
    game_id: Option<i64>,
    entries: &Vec<ExperienceEntry>,
    resolved: &Vec<Option<FilePath>>,
) -> (r: Result<Vec<ExperiencePlace>, ExperienceError>)
    requires
        entries@.len() == resolved@.len(),
    ensures
        match r {
            Ok(v) => {
                &&& entries@.len() > 0
                &&& entries_checked(root@, game_id, entries@, resolved_roots(resolved@), 0) is Ok
                &&& v@.len() == entries@.len()
                &&& forall|i: int|
                    0 <= i < v@.len() ==> place_of(
                        root@,
                        game_id,
                        entries@[i],
                        resolved_roots(resolved@)[i],
                        i as usize,
                    ) == Ok::<PlaceModel, ExperienceError>((#[trigger] v@[i])@)
            },
            Err(e) => match entries_checked(root@, game_id, entries@, resolved_roots(resolved@), 0) {
                Err(found) => e == found,
                Ok(_) => entries@.len() == 0 && e == ExperienceError::NoPlaces,
            },
        },
{
    let ghost roots = resolved_roots(resolved@);
    let mut out: Vec<ExperiencePlace> = Vec::new();
    let parent_step = "..";
    let mut i: usize = 0;
    while i < entries.len()
        invariant
            i <= entries.len(),
            entries@.len() == resolved@.len(),
            roots == resolved_roots(resolved@),
            parent_step@ == ".."@,
            out@.len() == i,
            entries_checked(root@, game_id, entries@, roots, 0) == entries_checked(root@, game_id, entries@, roots, i as int),
            forall|k: int|
                0 <= k < i ==> place_of(root@, game_id, entries@[k], roots[k], k as usize) == Ok::<
                    PlaceModel,
                    ExperienceError,
                >((#[trigger] out@[k])@),
        decreases entries.len() - i,
    {
        let entry = &entries[i];
        assert(entry.root@.parts == texts(entry.root.parts@));
        if entry.root.rooted || holds_text(&entry.root.parts, parent_step) {
            return Err(ExperienceError::InvalidRoot(i));
        }
        let place_root = match &resolved[i] {
            Some(place_root) => place_root,
            None => {
                return Err(ExperienceError::Unresolved(i));
            },
        };
        if place_root.is_same(root) || !place_root.starts_with(root) {
            return Err(ExperienceError::Outside(i));
        }
        let place = ExperiencePlace {
            alias: entry.alias.clone(),
            place_id: entry.place_id,
            root: place_root.copy(),
            experience_root: root.copy(),
            game_id,
            name: copy_opt(&entry.name),
        };
        out.push(place);
        i += 1;
    }
    if out.len() == 0 {
        return Err(ExperienceError::NoPlaces);
    }
    Ok(out)
}

pub open spec fn same_ignoring_case(a: Seq<char>, b: Seq<char>) -> bool {
    ascii_lower(a) == ascii_lower(b)
}

/// A selector picks a place: by the ids of the experience and the place, by the place's id, or by its
/// alias or name.
pub open spec fn selects(game_id: Option<i64>, place: PlaceModel, selector: Seq<char>) -> bool {
    let s = trimmed(selector);
    let pair = match cut(s, ':') {
        Some((game, id)) => match (i64_value(game), i64_value(id)) {
            (Some(game), Some(id)) => Some((game, id)),
            _ => None,
        },
        None => None,
    };
    match pair {
        Some((game, id)) => game_id is Some && game_id->0 == game && place.place_id is Some && place.place_id->0 == id,
        None => match i64_value(s) {
            Some(id) => place.place_id is Some && place.place_id->0 == id,
            None => same_ignoring_case(place.alias, s) || (place.name is Some && same_ignoring_case(place.name->0, s)),
        },
    }
}

fn matches_ignoring_case(a: &str, b: &str) -> (r: bool)
    ensures
        r == same_ignoring_case(a@, b@),
{
    same(&to_ascii_lower(a), &to_ascii_lower(b))
}

fn has_id(id: Option<i64>, wanted: i64) -> (r: bool)
    ensures
        r == (id is Some && id->0 == wanted),
{
    match id {
        Some(id) => id == wanted,
        None => false,
    }
}

/// Whether a selector picks a place.
pub fn matches_selector(game_id: Option<i64>, place: &ExperiencePlace, selector: &str) -> (r: bool)
    ensures
        r == selects(game_id, place@, selector@),
{
    let s = trim(selector);
    match split_once(&s, ':') {
        Some((game, id)) => match (parse_i64(&game), parse_i64(&id)) {
            (Some(game), Some(id)) => {
                return has_id(game_id, game) && has_id(place.place_id, id);
            },
            _ => {},
        },
        None => {},
    }
    match parse_i64(&s) {
        Some(id) => has_id(place.place_id, id),
        None => matches_ignoring_case(&place.alias, &s) || match &place.name {
            Some(name) => matches_ignoring_case(name, &s),
            None => false,
        },
    }
}

/// A place as it is offered.
pub open spec fn choice(place: PlaceModel) -> Seq<char> {
    match place.place_id {
        Some(id) => place.alias + " ("@ + signed_decimal(id as int) + ")"@,
        None => place.alias,
    }
}

/// Lists the places to choose from.
pub fn choices(list: &Vec<ExperiencePlace>) -> (r: String)
    ensures
        r@ == joined_by(places(list@).map_values(|p: PlaceModel| choice(p)), ", "@),
{
    let ghost wanted = places(list@).map_values(|p: PlaceModel| choice(p));
    let mut parts: Vec<String> = Vec::new();
    let mut i: usize = 0;
    while i < list.len()
        invariant
            i <= list.len(),
            wanted == places(list@).map_values(|p: PlaceModel| choice(p)),
            texts(parts@) =~= wanted.take(i as int),
        decreases list.len() - i,
    {
        let part = match list[i].place_id {
            Some(id) => {
                let opened = joined(&list[i].alias, " (");
                let numbered = joined(&opened, &to_signed_decimal(id));
                joined(&numbered, ")")
            },
            None => list[i].alias.clone(),
        };
        proof {
            assert(places(list@)[i as int] == list@[i as int]@);
            assert(wanted[i as int] == part@);
            lemma_texts_push(parts@, part);
        }
        parts.push(part);
        i += 1;
    }
    assert(wanted.take(i as int) =~= wanted);
    join_texts(&parts, ", ")
}

/// Why no place is chosen.
#[derive(PartialEq, Eq, Structural, Clone, Copy, Debug)]
pub enum SelectError {
    /// The selector picks no place.
    Unknown,
    /// The selector picks several places.
    Ambiguous,
    /// There are several places, and none was picked.
    ManyPlaces,
}

/// The places that a selector picks.
pub open spec fn picked(game_id: Option<i64>, list: Seq<PlaceModel>, selector: Seq<char>, i: int) -> bool {
    0 <= i < list.len() && selects(game_id, list[i], selector)
}

/// A place that holds a directory.
pub open spec fn holds(list: Seq<PlaceModel>, current: PathParts, i: int) -> bool {
    0 <= i < list.len() && path_starts_with(current, list[i].root)
}

/// Which place is chosen: the one that a selector picks; without one, the first that holds the current
/// directory, or the only one.
pub open spec fn is_choice(
    game_id: Option<i64>,
    list: Seq<PlaceModel>,
    current: PathParts,
    selector: Option<Seq<char>>,
    r: Result<usize, SelectError>,
) -> bool {
    let picking = selector is Some && trimmed(selector->0).len() > 0;
    if picking {
        match r {
            Ok(i) => picked(game_id, list, selector->0, i as int) && forall|j: int|
                #[trigger] picked(game_id, list, selector->0, j) ==> j == i,
            Err(SelectError::Unknown) => forall|j: int| !#[trigger] picked(game_id, list, selector->0, j),
            Err(SelectError::Ambiguous) => exists|i: int, j: int|
                i < j && #[trigger] picked(game_id, list, selector->0, i) && #[trigger] picked(game_id, list, selector->0, j),
            Err(SelectError::ManyPlaces) => false,
        }
    } else {
        match r {
            Ok(i) => (holds(list, current, i as int) && forall|j: int| 0 <= j < i ==> !#[trigger] holds(list, current, j)) || (
            list.len() == 1 && i == 0),
            Err(e) => e == SelectError::ManyPlaces && list.len() != 1 && forall|j: int| !#[trigger] holds(list, current, j),
        }
    }
}

/// Chooses the place that a command is about.
pub fn resolve_experience_place(
    game_id: Option<i64>,
    list: &Vec<ExperiencePlace>,
    current: &FilePath,
    selector: &Option<String>,
) -> (r: Result<usize, SelectError>)
    ensures
        is_choice(game_id, places(list@), current@, opt_text(*selector), r),
        r is Ok ==> r->Ok_0 < list@.len(),
{
    let ghost all = places(list@);
    assert(all.len() == list@.len());
    let ghost asked = opt_text(*selector);
    match selector {
        Some(wanted) => {
            let bare = trim(wanted);
            if !bare.as_str().is_empty() {
                let mut found: Option<usize> = None;
                let mut i: usize = 0;
                while i < list.len()
                    invariant
                        i <= list.len(),
                        all == places(list@),
                        all.len() == list@.len(),
                        opt_text(*selector) == Some(wanted@),
                        trimmed(wanted@).len() > 0,
                        match found {
                            Some(k) => k < i && picked(game_id, all, wanted@, k as int) && forall|j: int|
                                0 <= j < i && #[trigger] picked(game_id, all, wanted@, j) ==> j == k,
                            None => forall|j: int| 0 <= j < i ==> !#[trigger] picked(game_id, all, wanted@, j),
                        },
                    decreases list.len() - i,
                {
                    assert(all[i as int] == list@[i as int]@);
                    if matches_selector(game_id, &list[i], wanted) {
                        assert(picked(game_id, all, wanted@, i as int));
                        match found {
                            Some(k) => {
                                assert(picked(game_id, all, wanted@, k as int));
                                return Err(SelectError::Ambiguous);
                            },
                            None => {
                                found = Some(i);
                            },
                        }
                    }
                    i += 1;
                }
                return match found {
                    Some(k) => Ok(k),
                    None => Err(SelectError::Unknown),
                };
            }
        },
        None => {},
    }
    let mut i: usize = 0;
    while i < list.len()
        invariant
            i <= list.len(),
            all == places(list@),
            all.len() == list@.len(),
            asked == opt_text(*selector),
            !(asked is Some && trimmed(asked->0).len() > 0),
            forall|j: int| 0 <= j < i ==> !#[trigger] holds(all, current@, j),
        decreases list.len() - i,
    {
        assert(all[i as int] == list@[i as int]@);
        if current.starts_with(&list[i].root) {
            return Ok(i);
        }
        i += 1;
    }
    if list.len() == 1 {
        return Ok(0);
    }
    Err(SelectError::ManyPlaces)
}

/// What is chosen is settled: no two choices fit the same question.
pub proof fn law_choice_is_settled(
    game_id: Option<i64>,
    list: Seq<PlaceModel>,
    current: PathParts,
    selector: Option<Seq<char>>,
    a: Result<usize, SelectError>,
    b: Result<usize, SelectError>,
)
    requires
        is_choice(game_id, list, current, selector, a),
        is_choice(game_id, list, current, selector, b),
    ensures
        a == b,
{
}

} // verus!
