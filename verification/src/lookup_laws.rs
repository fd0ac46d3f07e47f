//! Which project, place or file of settings is meant.
use vstd::prelude::*;

use crate::config_scope::{ScopeFile, ancestor_with, config_layers, meant_value, scope_layers};
use crate::experience::{ExperienceEntry, ExperienceError, PlaceModel, experience_above, place_of, selects};
use crate::json::{JsonModel, value_at};
use crate::links::opt_text;
use crate::mapping::ProjectTree;
use crate::paths::{PathParts, extension_of, last_dot, path_starts_with, stem_of};
use crate::place_scripts::{
    ScriptDifferenceModel, ScriptModel, ScriptTally, class_pairs, exact_leftover, path_compared, rest_pairs,
};
use crate::project::{FactModel, PROJECT_FILE_NAME, PROJECT_JSON_FILE_NAME, SourceKind, kind_at};
use crate::roots::{ResolveError, foreign_in, inner_trees, nested_trees, project_in, project_meant};
use crate::settings::layered;
use crate::numbers::i64_value;
use crate::text::{ascii_lower, cut, trimmed};

verus! {

/// A file of a name in a directory.
pub open spec fn file_in(directory: PathParts, name: Seq<char>) -> PathParts {
    PathParts { rooted: directory.rooted, parts: directory.parts.push(name) }
}

/// A directory has one project: its own file, in one of the two spellings, or else the only one of
/// another tool.
pub proof fn law_a_directory_has_one_project(
    files: Map<PathParts, FactModel>,
    listings: Map<PathParts, Seq<Seq<char>>>,
    directory: PathParts,
)
    ensures
        ({
            let a = kind_at(files, file_in(directory, PROJECT_FILE_NAME@)) == SourceKind::File;
            let b = kind_at(files, file_in(directory, PROJECT_JSON_FILE_NAME@)) == SourceKind::File;
            let others = foreign_in(listings, directory);
            let r = project_in(files, listings, directory);
            &&& a && b ==> r == Err::<PathParts, ResolveError>(ResolveError::BothFiles)
            &&& a && !b ==> r == Ok::<PathParts, ResolveError>(file_in(directory, PROJECT_FILE_NAME@))
            &&& !a && b ==> r == Ok::<PathParts, ResolveError>(file_in(directory, PROJECT_JSON_FILE_NAME@))
            &&& !a && !b && others.len() == 1 ==> r == Ok::<PathParts, ResolveError>(file_in(directory, others[0]))
            &&& !a && !b && others.len() == 0 ==> r == Err::<PathParts, ResolveError>(ResolveError::NoProject)
            &&& !a && !b && others.len() > 1 ==> r == Err::<PathParts, ResolveError>(ResolveError::ManyForeign)
        }),
{
}

/// A project that was named is meant, whether by its file or by its directory, if it is there. Else
/// the nearest one above is.
pub proof fn law_the_named_project_is_meant(
    files: Map<PathParts, FactModel>,
    listings: Map<PathParts, Seq<Seq<char>>>,
    named: PathParts,
    start: PathParts,
)
    ensures
        kind_at(files, named) == SourceKind::File ==> project_meant(files, listings, Some(named), start) == Ok::<
            Option<PathParts>,
            ResolveError,
        >(Some(named)),
        kind_at(files, named) == SourceKind::Missing ==> project_meant(files, listings, Some(named), start) == Err::<
            Option<PathParts>,
            ResolveError,
        >(ResolveError::MissingFile),
        kind_at(files, named) == SourceKind::Directory && project_in(files, listings, named) is Ok && kind_at(
            files,
            project_in(files, listings, named)->Ok_0,
        ) == SourceKind::File ==> project_meant(files, listings, Some(named), start) == Ok::<
            Option<PathParts>,
            ResolveError,
        >(Some(project_in(files, listings, named)->Ok_0)),
        kind_at(files, start) != SourceKind::File && kind_at(files, file_in(start, PROJECT_FILE_NAME@)) == SourceKind::File
            && kind_at(files, file_in(start, PROJECT_JSON_FILE_NAME@)) != SourceKind::File ==> project_meant(
            files,
            listings,
            None,
            start,
        ) == Ok::<Option<PathParts>, ResolveError>(Some(file_in(start, PROJECT_FILE_NAME@))),
{
}

/// The nearest directory, from one upward, in which something is.
pub proof fn law_the_nearest_directory_is_found(files: Map<PathParts, FactModel>, directory: PathParts, marker: Seq<char>)
    ensures
        ancestor_with(files, directory, marker) matches Some(d) ==> path_starts_with(directory, d) && kind_at(
            files,
            file_in(d, marker),
        ) != SourceKind::Missing && (forall|e: PathParts| #[trigger]
            path_starts_with(directory, e) && e.parts.len() > d.parts.len() ==> kind_at(files, file_in(e, marker))
                == SourceKind::Missing),
        ancestor_with(files, directory, marker) is None ==> forall|e: PathParts| #[trigger]
            path_starts_with(directory, e) ==> kind_at(files, file_in(e, marker)) == SourceKind::Missing,
    decreases directory.parts.len(),
{
    let whole = directory.parts;
    assert(whole.subrange(0, whole.len() as int) =~= whole);
    if kind_at(files, file_in(directory, marker)) == SourceKind::Missing && whole.len() > 0 {
        let up = PathParts { rooted: directory.rooted, parts: whole.drop_last() };
        law_the_nearest_directory_is_found(files, up, marker);
        assert forall|e: PathParts| #[trigger] path_starts_with(directory, e) implies e == directory || path_starts_with(
            up,
            e,
        ) by {
            if e.parts.len() == whole.len() {
                assert(e.parts =~= whole);
            } else {
                assert(e.parts =~= up.parts.subrange(0, e.parts.len() as int));
            }
        }
        assert forall|e: PathParts| #[trigger] path_starts_with(up, e) implies path_starts_with(directory, e) by {
            assert(e.parts =~= whole.subrange(0, e.parts.len() as int));
        }
    } else if whole.len() == 0 {
        assert forall|e: PathParts| #[trigger] path_starts_with(directory, e) implies e == directory by {
            assert(e.parts =~= whole);
        }
    } else {
        assert forall|e: PathParts| #[trigger] path_starts_with(directory, e) implies e.parts.len() <= whole.len() by {}
    }
}

/// The nearest directory, from one upward, with the list of an experience.
pub proof fn law_the_nearest_experience_is_found(files: Map<PathParts, FactModel>, directory: PathParts)
    ensures
        experience_above(files, directory) matches Some(d) ==> path_starts_with(directory, d) && kind_at(
            files,
            file_in(d, "renium.experience.json"@),
        ) == SourceKind::File && (forall|e: PathParts| #[trigger]
            path_starts_with(directory, e) && e.parts.len() > d.parts.len() ==> kind_at(
                files,
                file_in(e, "renium.experience.json"@),
            ) != SourceKind::File),
        experience_above(files, directory) is None ==> forall|e: PathParts| #[trigger]
            path_starts_with(directory, e) ==> kind_at(files, file_in(e, "renium.experience.json"@)) != SourceKind::File,
    decreases directory.parts.len(),
{
    let whole = directory.parts;
    assert(whole.subrange(0, whole.len() as int) =~= whole);
    if kind_at(files, file_in(directory, "renium.experience.json"@)) != SourceKind::File && whole.len() > 0 {
        let up = PathParts { rooted: directory.rooted, parts: whole.drop_last() };
        law_the_nearest_experience_is_found(files, up);
        assert forall|e: PathParts| #[trigger] path_starts_with(directory, e) implies e == directory || path_starts_with(
            up,
            e,
        ) by {
            if e.parts.len() == whole.len() {
                assert(e.parts =~= whole);
            } else {
                assert(e.parts =~= up.parts.subrange(0, e.parts.len() as int));
            }
        }
        assert forall|e: PathParts| #[trigger] path_starts_with(up, e) implies path_starts_with(directory, e) by {
            assert(e.parts =~= whole.subrange(0, e.parts.len() as int));
        }
    } else if whole.len() == 0 {
        assert forall|e: PathParts| #[trigger] path_starts_with(directory, e) implies e == directory by {
            assert(e.parts =~= whole);
        }
    } else {
        assert forall|e: PathParts| #[trigger] path_starts_with(directory, e) implies e.parts.len() <= whole.len() by {}
    }
}

/// A place of an experience is what its entry says, and stands below the experience.
pub proof fn law_places_stand_in_their_experience(
    root: PathParts,
    game_id: Option<i64>,
    entry: ExperienceEntry,
    resolved: Option<PathParts>,
    i: usize,
)
    ensures
        ({
            let r = place_of(root, game_id, entry, resolved, i);
            let leads_down = !entry.root@.rooted && !entry.root@.parts.contains(".."@);
            &&& r is Ok <==> leads_down && resolved is Some && resolved->0 != root && path_starts_with(resolved->0, root)
            &&& r is Ok ==> r->Ok_0.alias == entry.alias@ && r->Ok_0.place_id == entry.place_id && r->Ok_0.root
                == resolved->0 && r->Ok_0.experience_root == root && r->Ok_0.game_id == game_id && r->Ok_0.name
                == opt_text(entry.name)
            &&& !leads_down ==> r == Err::<PlaceModel, ExperienceError>(ExperienceError::InvalidRoot(i))
            &&& leads_down && resolved is None ==> r == Err::<PlaceModel, ExperienceError>(
                ExperienceError::Unresolved(i),
            )
        }),
{
}

/// A place is picked by its id, by the ids of its experience and its own with a colon between
/// them, or by its alias or its name, whatever their case.
pub proof fn law_places_are_picked(game_id: Option<i64>, place: PlaceModel, selector: Seq<char>)
    ensures
        cut(trimmed(selector), ':') is None && i64_value(trimmed(selector)) is None ==> (selects(
            game_id,
            place,
            selector,
        ) <==> ascii_lower(place.alias) == ascii_lower(trimmed(selector)) || (place.name is Some && ascii_lower(
            place.name->0,
        ) == ascii_lower(trimmed(selector)))),
        cut(trimmed(selector), ':') is None && i64_value(trimmed(selector)) is Some ==> (selects(
            game_id,
            place,
            selector,
        ) <==> place.place_id is Some && place.place_id->0 == i64_value(trimmed(selector))->0),
        cut(trimmed(selector), ':') is Some && i64_value((cut(trimmed(selector), ':')->0).0) is Some && i64_value(
            (cut(trimmed(selector), ':')->0).1,
        ) is Some ==> (selects(game_id, place, selector) <==> game_id is Some && game_id->0 == i64_value(
            (cut(trimmed(selector), ':')->0).0,
        )->0 && place.place_id is Some && place.place_id->0 == i64_value((cut(trimmed(selector), ':')->0).1)->0),
{
}

/// A project and those inside it, at any depth, are all listed.
pub proof fn law_inner_projects_are_listed(tree: ProjectTree, i: int, inner: ProjectTree)
    requires
        0 <= i < tree.nested@.len(),
        tree.nested@[i] is Some,
        inner_trees(tree.nested@[i]->0).contains(inner),
    ensures
        inner_trees(tree).contains(inner),
        inner_trees(tree).contains(tree),
{
    lemma_nested(tree, tree.nested@.len(), i, inner);
    let all = inner_trees(tree);
    assert(all[0] == tree);
    let list = nested_trees(tree, tree.nested@.len());
    let k = choose|k: int| 0 <= k < list.len() && list[k] == inner;
    assert(all[k + 1] == inner);
}

proof fn lemma_nested(tree: ProjectTree, n: nat, i: int, inner: ProjectTree)
    requires
        0 <= i < n <= tree.nested@.len(),
        tree.nested@[i] is Some,
        inner_trees(tree.nested@[i]->0).contains(inner),
    ensures
        nested_trees(tree, n).contains(inner),
    decreases n,
{
    let before = nested_trees(tree, (n - 1) as nat);
    let after = nested_trees(tree, n);
    if i == n - 1 {
        let more = inner_trees(tree.nested@[i]->0);
        let k = choose|k: int| 0 <= k < more.len() && more[k] == inner;
        assert(after[before.len() + k] == inner);
    } else {
        lemma_nested(tree, (n - 1) as nat, i, inner);
        let k = choose|k: int| 0 <= k < before.len() && before[k] == inner;
        assert(after[k] == inner);
    }
}

/// A setting that the narrowest scope does not speak of is what the wider ones say.
pub proof fn law_wider_scopes_say_the_rest(layers: Seq<JsonModel>, path: Seq<Seq<char>>)
    requires
        layers.len() > 0,
        layers.last() is Object,
        layered(layers, (layers.len() - 1) as nat) is Object,
        path.len() > 0,
        !layers.last()->Object_0.dom().contains(path[0]),
    ensures
        value_at(layered(layers, layers.len()), path) == value_at(layered(layers, (layers.len() - 1) as nat), path),
{
    crate::json::law_merge_keeps_other_keys(layered(layers, (layers.len() - 1) as nat), layers.last(), path);
}

proof fn lemma_scope_layers(list: Seq<ScopeFile>, n: nat, i: int)
    requires
        n <= list.len(),
        0 <= i < n,
        list[i].content is Some,
    ensures
        scope_layers(list, None, n).contains(list[i].content->0@),
    decreases n,
{
    let before = scope_layers(list, None, (n - 1) as nat);
    let after = scope_layers(list, None, n);
    if i == n - 1 {
        assert(after[before.len() as int] == list[i].content->0@);
    } else {
        lemma_scope_layers(list, (n - 1) as nat, i);
        let k = choose|k: int| 0 <= k < before.len() && before[k] == list[i].content->0@;
        assert(after[k] == list[i].content->0@);
    }
}

/// Every scope that is there counts, and the settings of the project come last.
pub proof fn law_every_scope_counts(list: Seq<ScopeFile>, settings: Map<Seq<char>, JsonModel>, i: int)
    requires
        0 <= i < list.len(),
        list[i].content is Some,
    ensures
        config_layers(list, None, None).contains(list[i].content->0@),
        config_layers(list, None, Some(JsonModel::Object(settings))).last() == JsonModel::Object(settings),
        config_layers(list, None, Some(JsonModel::Object(settings))).drop_last() == config_layers(list, None, None),
{
    lemma_scope_layers(list, list.len(), i);
    let all = config_layers(list, None, Some(JsonModel::Object(settings)));
    assert(all.drop_last() =~= config_layers(list, None, None));
}

/// A value that was given is read as what it says, or is a text where that was asked for or it
/// says nothing else.
pub proof fn law_given_values_are_read(text: Seq<char>, read: JsonModel)
    ensures
        meant_value(false, text, Some(read)) == read,
        meant_value(true, text, Some(read)) == JsonModel::Text(text),
        meant_value(false, text, None) == JsonModel::Text(text),
{
}

proof fn lemma_last_dot(s: Seq<char>)
    ensures
        -1 <= last_dot(s) < s.len() || (s.len() == 0 && last_dot(s) == -1),
        last_dot(s) >= 0 ==> s[last_dot(s)] == '.',
        forall|i: int| last_dot(s) < i < s.len() ==> #[trigger] s[i] != '.',
    decreases s.len(),
{
    if s.len() > 0 && s.last() != '.' {
        let rest = s.drop_last();
        lemma_last_dot(rest);
        assert forall|i: int| last_dot(s) < i < s.len() implies #[trigger] s[i] != '.' by {
            if i < s.len() - 1 {
                assert(rest[i] == s[i]);
            }
        }
        if last_dot(rest) >= 0 {
            assert(rest[last_dot(rest)] == s[last_dot(rest)]);
        }
    }
}

/// The stem and the extension of a name, with a dot between them, make the name. An extension
/// holds no dot, and a name that only starts with one has none.
pub proof fn law_stem_and_extension_make_the_name(name: Seq<char>)
    ensures
        extension_of(name) matches Some(e) ==> name == stem_of(name).push('.') + e && !e.contains('.') && stem_of(
            name,
        ).len() > 0,
        extension_of(name) is None ==> stem_of(name) == name,
        (exists|i: int| 0 < i < name.len() && #[trigger] name[i] == '.') ==> extension_of(name) is Some,
{
    lemma_last_dot(name);
    match extension_of(name) {
        Some(e) => {
            assert(name =~= stem_of(name).push('.') + e);
        },
        None => {},
    }
}

proof fn lemma_exact_alone(project: Seq<ScriptModel>, n: nat)
    requires
        n <= project.len(),
    ensures
        exact_leftover(project, Seq::empty(), n).project == project.take(n as int),
        exact_leftover(project, Seq::empty(), n).place.len() == 0,
        exact_leftover(project, Seq::empty(), n).matched == 0,
    decreases n,
{
    if n > 0 {
        lemma_exact_alone(project, (n - 1) as nat);
        assert(project.take(n as int) =~= project.take(n - 1).push(project[n - 1]));
    } else {
        assert(project.take(0) =~= Seq::empty());
    }
}

proof fn lemma_pairs_alone(path: Seq<Seq<char>>, project: Seq<ScriptModel>, tally: ScriptTally, n: nat)
    requires
        n <= project.len(),
    ensures
        class_pairs(path, project, Seq::empty(), tally, n).project == project.take(n as int),
        class_pairs(path, project, Seq::empty(), tally, n).place.len() == 0,
        class_pairs(path, project, Seq::empty(), tally, n).tally == tally,
    decreases n,
{
    if n > 0 {
        lemma_pairs_alone(path, project, tally, (n - 1) as nat);
        assert(project.take(n as int) =~= project.take(n - 1).push(project[n - 1]));
        let before = class_pairs(path, project, Seq::empty(), tally, (n - 1) as nat);
        assert(before.place =~= Seq::empty());
    } else {
        assert(project.take(0) =~= Seq::empty());
    }
}

proof fn lemma_rest_missing(path: Seq<Seq<char>>, project: Seq<ScriptModel>, tally: ScriptTally, i: int)
    ensures
        ({
            let t = rest_pairs(path, project, Seq::empty(), tally);
            &&& t.missing == tally.missing + project.len() && t.changed == tally.changed && t.extra == tally.extra
                && t.matching == tally.matching
            &&& t.differences.len() == tally.differences.len() + project.len()
            &&& tally.differences.is_prefix_of(t.differences)
            &&& 0 <= i < project.len() ==> t.differences[tally.differences.len() + i] == (
            ScriptDifferenceModel::MissingFromPlace { path, project_class: project[i].class_name })
        }),
    decreases project.len(),
{
    if project.len() > 0 {
        let next = ScriptTally {
            missing: tally.missing + 1,
            differences: tally.differences.push(
                ScriptDifferenceModel::MissingFromPlace { path, project_class: project[0].class_name },
            ),
            ..tally
        };
        lemma_rest_missing(path, project.drop_first(), next, i - 1);
        lemma_rest_missing(path, project.drop_first(), next, 0);
        let t = rest_pairs(path, project, Seq::empty(), tally);
        assert(next.differences =~= t.differences.subrange(0, next.differences.len() as int));
        assert(tally.differences =~= t.differences.subrange(0, tally.differences.len() as int)) by {
            assert forall|k: int| 0 <= k < tally.differences.len() implies tally.differences[k] == t.differences[k] by {
                assert(next.differences[k] == t.differences.subrange(0, next.differences.len() as int)[k]);
            }
        }
        if i == 0 {
            assert(next.differences[tally.differences.len() as int] == t.differences.subrange(
                0,
                next.differences.len() as int,
            )[tally.differences.len() as int]);
        } else if 0 < i < project.len() {
            assert(project.drop_first()[i - 1] == project[i]);
        }
    } else {
        assert(tally.differences =~= tally.differences.subrange(0, tally.differences.len() as int));
    }
}

/// Scripts of a project that a place does not have are told, each as missing.
pub proof fn law_scripts_that_a_place_lacks_are_missing(path: Seq<Seq<char>>, project: Seq<ScriptModel>, tally: ScriptTally, i: int)
    ensures
        ({
            let t = path_compared(path, project, Seq::empty(), tally);
            &&& t.missing == tally.missing + project.len() && t.changed == tally.changed && t.extra == tally.extra
                && t.matching == tally.matching
            &&& tally.differences.is_prefix_of(t.differences)
            &&& 0 <= i < project.len() ==> t.differences[tally.differences.len() + i] == (
            ScriptDifferenceModel::MissingFromPlace { path, project_class: project[i].class_name })
        }),
{
    let none = Seq::<ScriptModel>::empty();
    lemma_exact_alone(project, project.len());
    assert(project.take(project.len() as int) =~= project);
    let left = exact_leftover(project, none, project.len());
    assert(left.place =~= none);
    let matched = ScriptTally { matching: tally.matching + left.matched, ..tally };
    assert(matched == tally);
    lemma_pairs_alone(path, project, tally, project.len());
    let pairs = class_pairs(path, project, none, tally, project.len());
    assert(pairs.place =~= none);
    lemma_rest_missing(path, project, tally, i);
}

/// A script that both have, with another source, has changed; one with another class too.
pub proof fn law_changed_scripts_are_told(path: Seq<Seq<char>>, a: ScriptModel, b: ScriptModel, tally: ScriptTally)
    ensures
        ({
            let t = path_compared(path, seq![a], seq![b], tally);
            &&& a == b ==> t.matching == tally.matching + 1 && t.differences == tally.differences
            &&& a != b && a.class_name == b.class_name ==> t.changed == tally.changed + 1 && t.differences
                == tally.differences.push(
                ScriptDifferenceModel::SourceChanged { path, class_name: a.class_name },
            )
            &&& a.class_name != b.class_name ==> t.changed == tally.changed + 1 && t.differences
                == tally.differences.push(
                ScriptDifferenceModel::ClassChanged { path, project_class: a.class_name, place_class: b.class_name },
            )
            &&& t.missing == tally.missing && t.extra == tally.extra
        }),
{
    let one = seq![a];
    let other = seq![b];
    reveal_with_fuel(exact_leftover, 3);
    reveal_with_fuel(class_pairs, 3);
    reveal_with_fuel(rest_pairs, 4);
    reveal_with_fuel(crate::place_scripts::without_first, 3);
    reveal_with_fuel(crate::place_scripts::class_taken, 3);
    assert(other[0] == b);
    assert(other.contains(b));
    assert(other.drop_first() =~= Seq::<ScriptModel>::empty());
    assert(one.drop_first() =~= Seq::<ScriptModel>::empty());
    assert(Seq::<ScriptModel>::empty().push(a) =~= one);
    if a == b {
        assert(other.contains(a));
    } else {
        assert(!other.contains(a));
    }
}

} // verus!
