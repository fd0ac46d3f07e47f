//! How scripts are named in files, and what is remembered of it for directories.
use vstd::prelude::*;

use crate::link_apply::value_of;
use crate::paths::{path_after, path_starts_with, FilePath, PathParts};
use crate::table::{key_views, Key, Table};

verus! {

broadcast use vstd::seq_lib::group_seq_properties;

/// Which extension the files of scripts get.
#[derive(PartialEq, Eq, Structural, Clone, Copy, Debug)]
pub enum ScriptExtensionPolicy {
    Preserve,
    Luau,
    Lua,
}

impl Default for ScriptExtensionPolicy {
    fn default() -> (r: Self)
        ensures
            r == ScriptExtensionPolicy::Preserve,
    {
        ScriptExtensionPolicy::Preserve
    }
}

/// What the names of script files end in, by the kind of script.
pub struct ExportNaming {
    pub server_suffix: String,
    pub client_suffix: String,
    pub module_suffix: String,
    pub plugin_suffix: String,
    pub client_run_context_suffix: String,
}

impl Default for ExportNaming {
    fn default() -> (r: Self)
        ensures
            r.server_suffix@ == ".server"@,
            r.client_suffix@ == ".client"@,
            r.module_suffix@ == Seq::<char>::empty(),
            r.plugin_suffix@ == ".plugin"@,
            r.client_run_context_suffix@ == ".run-client"@,
    {
        ExportNaming {
            server_suffix: ".server".to_owned(),
            client_suffix: ".client".to_owned(),
            module_suffix: String::new(),
            plugin_suffix: ".plugin".to_owned(),
            client_run_context_suffix: ".run-client".to_owned(),
        }
    }
}

/// How a project names the files of scripts.
pub struct ProjectScriptNaming {
    pub extension: ScriptExtensionPolicy,
    pub server_suffix: String,
    pub client_suffix: String,
    pub module_suffix: String,
    pub plugin_suffix: String,
    pub client_run_context_suffix: String,
}

#[verifier::ext_equal]
pub struct NamingModel {
    pub extension: ScriptExtensionPolicy,
    pub server_suffix: Seq<char>,
    pub client_suffix: Seq<char>,
    pub module_suffix: Seq<char>,
    pub plugin_suffix: Seq<char>,
    pub client_run_context_suffix: Seq<char>,
}

impl View for ProjectScriptNaming {
    type V = NamingModel;

    open spec fn view(&self) -> NamingModel {
        NamingModel {
            extension: self.extension,
            server_suffix: self.server_suffix@,
            client_suffix: self.client_suffix@,
            module_suffix: self.module_suffix@,
            plugin_suffix: self.plugin_suffix@,
            client_run_context_suffix: self.client_run_context_suffix@,
        }
    }
}

/// The naming that a policy and suffixes make.
pub open spec fn naming_of(extension: ScriptExtensionPolicy, naming: ExportNaming) -> NamingModel {
    NamingModel {
        extension,
        server_suffix: naming.server_suffix@,
        client_suffix: naming.client_suffix@,
        module_suffix: naming.module_suffix@,
        plugin_suffix: naming.plugin_suffix@,
        client_run_context_suffix: naming.client_run_context_suffix@,
    }
}

/// The naming where no project says otherwise.
pub open spec fn default_naming() -> NamingModel {
    NamingModel {
        extension: ScriptExtensionPolicy::Preserve,
        server_suffix: ".server"@,
        client_suffix: ".client"@,
        module_suffix: Seq::empty(),
        plugin_suffix: ".plugin"@,
        client_run_context_suffix: ".run-client"@,
    }
}

impl ProjectScriptNaming {
    /// A policy and suffixes taken together.
    pub fn from_export(extension: ScriptExtensionPolicy, naming: &ExportNaming) -> (r: Self)
        ensures
            r@ == naming_of(extension, *naming),
    {
        ProjectScriptNaming {
            extension,
            server_suffix: naming.server_suffix.clone(),
            client_suffix: naming.client_suffix.clone(),
            module_suffix: naming.module_suffix.clone(),
            plugin_suffix: naming.plugin_suffix.clone(),
            client_run_context_suffix: naming.client_run_context_suffix.clone(),
        }
    }

    pub fn copy(&self) -> (r: Self)
        ensures
            r@ == self@,
    {
        ProjectScriptNaming {
            extension: self.extension,
            server_suffix: self.server_suffix.clone(),
            client_suffix: self.client_suffix.clone(),
            module_suffix: self.module_suffix.clone(),
            plugin_suffix: self.plugin_suffix.clone(),
            client_run_context_suffix: self.client_run_context_suffix.clone(),
        }
    }
}

impl Default for ProjectScriptNaming {
    fn default() -> (r: Self)
        ensures
            r@ == default_naming(),
    {
        let naming = ExportNaming::default();
        ProjectScriptNaming::from_export(ScriptExtensionPolicy::Preserve, &naming)
    }
}

impl Key for FilePath {
    fn same_key(&self, other: &Self) -> (r: bool) {
        self.is_same(other)
    }

    fn copy_key(&self) -> (r: Self) {
        self.copy()
    }
}

/// What is remembered: a naming for each of some directories.
pub struct NamingCache {
    pub rows: Table<FilePath, ProjectScriptNaming>,
}

impl View for NamingCache {
    type V = Map<PathParts, NamingModel>;

    open spec fn view(&self) -> Map<PathParts, NamingModel> {
        self.rows@
    }
}

impl NamingCache {
    pub fn new() -> (r: NamingCache)
        ensures
            r@ == Map::<PathParts, NamingModel>::empty(),
    {
        NamingCache { rows: Table::new() }
    }
}

/// The naming that a project gives, or that where there is none.
pub open spec fn naming_or_default(project: Option<ProjectScriptNaming>) -> NamingModel {
    match project {
        Some(naming) => naming@,
        None => default_naming(),
    }
}

/// Remembers for a directory the naming of the project that was found for it, if one was.
pub fn refresh_script_naming(cache: &mut NamingCache, root: &FilePath, project: Option<ProjectScriptNaming>)
    ensures
        final(cache)@ == old(cache)@.insert(root@, naming_or_default(project)),
{
    let naming = match project {
        Some(naming) => naming,
        None => ProjectScriptNaming::default(),
    };
    cache.rows.put(root.copy(), naming);
}

/// Remembers a naming for a directory.
pub fn cache_script_naming(cache: &mut NamingCache, root: &FilePath, naming: &ProjectScriptNaming)
    ensures
        final(cache)@ == old(cache)@.insert(root@, naming@),
{
    cache.rows.put(root.copy(), naming.copy());
}

/// `d` is the deepest remembered directory at or above a path.
pub open spec fn is_nearest(cache: Map<PathParts, NamingModel>, root: PathParts, d: PathParts) -> bool {
    &&& cache.dom().contains(d)
    &&& path_starts_with(root, d)
    &&& forall|e: PathParts| #[trigger]
        cache.dom().contains(e) && path_starts_with(root, e) ==> e.parts.len() <= d.parts.len()
}

/// No remembered directory is at or above a path.
pub open spec fn none_above(cache: Map<PathParts, NamingModel>, root: PathParts) -> bool {
    forall|e: PathParts| #[trigger] cache.dom().contains(e) ==> !path_starts_with(root, e)
}

/// The naming of a path: that of the deepest remembered directory at or above it.
pub fn cached_script_naming(cache: &NamingCache, root: &FilePath) -> (r: ProjectScriptNaming)
    ensures
        none_above(cache@, root@) ==> r@ == default_naming(),
        forall|d: PathParts| #[trigger] is_nearest(cache@, root@, d) ==> r@ == cache@[d],
        none_above(cache@, root@) || exists|d: PathParts| #[trigger] is_nearest(cache@, root@, d),
{
    let keys = cache.rows.keys();
    let ghost all = key_views(keys@);
    let mut best: Option<usize> = None;
    let mut i: usize = 0;
    while i < keys.len()
        invariant
            i <= keys.len(),
            all == key_views(keys@),
            match best {
                Some(b) => b < i && path_starts_with(root@, all[b as int]) && forall|j: int|
                    0 <= j < i && path_starts_with(root@, #[trigger] all[j]) ==> all[j].parts.len() <= all[b as int].parts.len(),
                None => forall|j: int| 0 <= j < i ==> !path_starts_with(root@, #[trigger] all[j]),
            },
        decreases keys.len() - i,
    {
        assert(all[i as int] == keys@[i as int]@);
        if root.starts_with(&keys[i]) {
            let deeper = match best {
                Some(b) => {
                    assert(all[b as int] == keys@[b as int]@);
                    keys[i].parts.len() > keys[b].parts.len()
                },
                None => true,
            };
            if deeper {
                best = Some(i);
            }
        }
        i += 1;
    }
    proof {
        assert forall|e: PathParts| #[trigger] cache@.dom().contains(e) implies exists|j: int|
            0 <= j < all.len() && all[j] == e by {
            assert(all.contains(e));
        }
    }
    match best {
        Some(b) => {
            assert(all[b as int] == keys@[b as int]@);
            assert(all.contains(all[b as int]));
            assert(is_nearest(cache@, root@, all[b as int]));
            assert forall|d: PathParts| #[trigger] is_nearest(cache@, root@, d) implies d == all[b as int] by {
                lemma_same_depth(root@, d, all[b as int]);
            }
            match cache.rows.get(&keys[b]) {
                Some(naming) => naming.copy(),
                None => ProjectScriptNaming::default(),
            }
        },
        None => {
            assert(none_above(cache@, root@));
            assert forall|d: PathParts| !#[trigger] is_nearest(cache@, root@, d) by {}
            ProjectScriptNaming::default()
        },
    }
}

/// Two directories above one path at the same depth are one.
proof fn lemma_same_depth(root: PathParts, a: PathParts, b: PathParts)
    requires
        path_starts_with(root, a),
        path_starts_with(root, b),
        a.parts.len() == b.parts.len(),
    ensures
        a == b,
{
    assert(a.parts =~= root.parts.take(a.parts.len() as int));
    assert(b.parts =~= root.parts.take(b.parts.len() as int));
}

/// Forgets the namings of a directory and of all below it.
pub fn remove_cached_script_naming(cache: &mut NamingCache, root: &FilePath)
    ensures
        forall|p: PathParts| #[trigger]
            value_of(final(cache)@, p) == if path_starts_with(p, root@) {
                None
            } else {
                value_of(old(cache)@, p)
            },
{
    let ghost start = cache@;
    let keys = cache.rows.keys();
    let ghost all = key_views(keys@);
    let mut i: usize = 0;
    while i < keys.len()
        invariant
            i <= keys.len(),
            all == key_views(keys@),
            forall|k: PathParts| #[trigger] all.contains(k) <==> start.dom().contains(k),
            forall|p: PathParts| #[trigger]
                value_of(cache@, p) == if all.take(i as int).contains(p) && path_starts_with(p, root@) {
                    None
                } else {
                    value_of(start, p)
                },
        decreases keys.len() - i,
    {
        let ghost id = all[i as int];
        let ghost before = cache@;
        proof {
            lemma_take_contains(all, i as int);
            assert(id == keys@[i as int]@);
        }
        if keys[i].starts_with(root) {
            cache.rows.take(&keys[i]);
            assert(cache@ == before.remove(id));
        }
        assert forall|p: PathParts| #[trigger]
            value_of(cache@, p) == if all.take(i + 1).contains(p) && path_starts_with(p, root@) {
                None
            } else {
                value_of(start, p)
            } by {
            assert(value_of(before, p) == if all.take(i as int).contains(p) && path_starts_with(p, root@) {
                None
            } else {
                value_of(start, p)
            });
        }
        i += 1;
    }
    assert(all.take(i as int) =~= all);
    assert forall|p: PathParts| #[trigger]
        value_of(cache@, p) == if path_starts_with(p, root@) {
            None
        } else {
            value_of(start, p)
        } by {
        assert(all.contains(p) == start.dom().contains(p));
    }
}

/// The first `i + 1` of a list are the first `i` and the next.
pub proof fn lemma_take_contains<A>(all: Seq<A>, i: int)
    requires
        0 <= i < all.len(),
    ensures
        forall|x: A| #![auto] all.take(i + 1).contains(x) == (all.take(i).contains(x) || x == all[i]),
{
    let done = all.take(i);
    let next = all.take(i + 1);
    assert(next =~= done.push(all[i]));
    assert(next[i] == all[i]);
    assert forall|x: A| #![auto] next.contains(x) == (done.contains(x) || x == all[i]) by {
        if done.contains(x) {
            let at = choose|at: int| 0 <= at < done.len() && done[at] == x;
            assert(next[at] == x);
        }
        if next.contains(x) && x != all[i] {
            let at = choose|at: int| 0 <= at < next.len() && next[at] == x;
            assert(done[at] == x);
        }
    }
}

/// A path at or below `from` as it is called at or below `to`.
pub open spec fn moved_path(p: PathParts, from: PathParts, to: PathParts) -> PathParts {
    PathParts { rooted: to.rooted, parts: to.parts + path_after(p, from).parts }
}

/// What is remembered for a path after a directory moved.
pub open spec fn naming_after_move(
    cache: Map<PathParts, NamingModel>,
    source: PathParts,
    destination: PathParts,
    p: PathParts,
) -> Option<NamingModel> {
    let origin = moved_path(p, destination, source);
    if path_starts_with(p, destination) && cache.dom().contains(origin) {
        Some(cache[origin])
    } else if path_starts_with(p, source) {
        None
    } else {
        value_of(cache, p)
    }
}

proof fn lemma_moved_back(p: PathParts, from: PathParts, to: PathParts)
    requires
        path_starts_with(p, from),
    ensures
        path_starts_with(moved_path(p, from, to), to),
        moved_path(moved_path(p, from, to), to, from) == p,
{
    let there = moved_path(p, from, to);
    assert(there.parts.subrange(0, to.parts.len() as int) =~= to.parts);
    assert(there.parts.subrange(to.parts.len() as int, there.parts.len() as int) =~= path_after(p, from).parts);
    assert(from.parts + path_after(p, from).parts =~= p.parts);
}

/// Takes what is remembered at and below a directory along when it moves.
pub fn relocate_cached_script_naming(cache: &mut NamingCache, source: &FilePath, destination: &FilePath)
    ensures
        forall|p: PathParts| #[trigger]
            value_of(final(cache)@, p) == naming_after_move(old(cache)@, source@, destination@, p),
{
    let ghost start = cache@;
    let keys = cache.rows.keys();
    let ghost all = key_views(keys@);
    let mut targets: Vec<FilePath> = Vec::new();
    let mut moved: Vec<ProjectScriptNaming> = Vec::new();
    let ghost mut origins: Seq<PathParts> = Seq::empty();
    let mut i: usize = 0;
    while i < keys.len()
        invariant
            i <= keys.len(),
            cache@ == start,
            all == key_views(keys@),
            forall|k: PathParts| #[trigger] all.contains(k) <==> start.dom().contains(k),
            targets@.len() == moved@.len() == origins.len(),
            forall|j: int|
                0 <= j < origins.len() ==> start.dom().contains(#[trigger] origins[j]) && path_starts_with(
                    origins[j],
                    source@,
                ) && targets@[j]@ == moved_path(origins[j], source@, destination@) && moved@[j]@ == start[origins[j]],
            forall|k: int|
                0 <= k < i && path_starts_with(#[trigger] all[k], source@) ==> origins.contains(all[k]),
        decreases keys.len() - i,
    {
        assert(all[i as int] == keys@[i as int]@);
        assert(all.contains(all[i as int]));
        match keys[i].strip_prefix(source) {
            Some(rest) => {
                let naming = match cache.rows.get(&keys[i]) {
                    Some(naming) => naming.copy(),
                    None => ProjectScriptNaming::default(),
                };
                let target = destination.join_parts(&rest.parts, 0);
                assert(texts_whole(rest@.parts));
                targets.push(target);
                moved.push(naming);
                proof {
                    let before = origins;
                    origins = origins.push(all[i as int]);
                    assert(origins[before.len() as int] == all[i as int]);
                    assert forall|k: int|
                        0 <= k < i + 1 && path_starts_with(#[trigger] all[k], source@) implies origins.contains(all[k]) by {
                        if k < i {
                            let at = choose|at: int| 0 <= at < before.len() && before[at] == all[k];
                            assert(origins[at] == all[k]);
                        }
                    }
                }
            },
            None => {},
        }
        i += 1;
    }
    remove_cached_script_naming(cache, source);
    let ghost kept = cache@;
    assert forall|p: PathParts| start.dom().contains(p) && #[trigger] path_starts_with(p, source@) implies origins.contains(p) by {
        assert(all.contains(p));
        let k = choose|k: int| 0 <= k < all.len() && all[k] == p;
        assert(path_starts_with(all[k], source@));
    }
    while moved.len() > 0
        invariant
            targets@.len() == moved@.len() <= origins.len(),
            forall|j: int|
                0 <= j < origins.len() ==> start.dom().contains(#[trigger] origins[j]) && path_starts_with(
                    origins[j],
                    source@,
                ),
            forall|j: int|
                0 <= j < moved@.len() ==> #[trigger] targets@[j]@ == moved_path(origins[j], source@, destination@)
                    && moved@[j]@ == start[origins[j]],
            forall|p: PathParts| #[trigger]
                value_of(cache@, p) == if exists|j: int|
                    moved@.len() <= j < origins.len() && p == moved_path(#[trigger] origins[j], source@, destination@) {
                    Some(start[moved_path(p, destination@, source@)])
                } else {
                    value_of(kept, p)
                },
        decreases moved.len(),
    {
        let ghost n = moved@.len() - 1;
        let ghost before = cache@;
        let target = targets.pop().unwrap();
        let naming = moved.pop().unwrap();
        let ghost at = target@;
        let ghost value = naming@;
        proof {
            assert(path_starts_with(origins[n], source@));
            lemma_moved_back(origins[n], source@, destination@);
        }
        cache.rows.put(target, naming);
        assert(cache@ == before.insert(at, value));
        assert forall|p: PathParts| #[trigger]
            value_of(cache@, p) == if exists|j: int|
                n <= j < origins.len() && p == moved_path(#[trigger] origins[j], source@, destination@) {
                Some(start[moved_path(p, destination@, source@)])
            } else {
                value_of(kept, p)
            } by {
            assert(value_of(before, p) == if exists|j: int|
                n + 1 <= j < origins.len() && p == moved_path(#[trigger] origins[j], source@, destination@) {
                Some(start[moved_path(p, destination@, source@)])
            } else {
                value_of(kept, p)
            });
            if p == at {
                assert(p == moved_path(origins[n], source@, destination@));
            }
        }
    }
    assert forall|p: PathParts| #[trigger]
        value_of(cache@, p) == naming_after_move(start, source@, destination@, p) by {
        let there = exists|j: int|
            0 <= j < origins.len() && p == moved_path(#[trigger] origins[j], source@, destination@);
        let origin = moved_path(p, destination@, source@);
        if there {
            let j = choose|j: int| 0 <= j < origins.len() && p == moved_path(#[trigger] origins[j], source@, destination@);
            lemma_moved_back(origins[j], source@, destination@);
        } else if path_starts_with(p, destination@) && start.dom().contains(origin) {
            lemma_moved_back(p, destination@, source@);
            assert(origins.contains(origin));
            let j = choose|j: int| 0 <= j < origins.len() && origins[j] == origin;
            assert(p == moved_path(origins[j], source@, destination@));
        }
    }
}

/// A list taken whole is itself.
spec fn texts_whole(s: Seq<Seq<char>>) -> bool {
    s.subrange(0, s.len() as int) =~= s
}

/// Naming a directory settles the naming of all below it that no deeper directory settles.
pub proof fn law_cached_naming_reaches_below(
    cache: Map<PathParts, NamingModel>,
    root: PathParts,
    naming: NamingModel,
    path: PathParts,
)
    requires
        path_starts_with(path, root),
        forall|e: PathParts| #[trigger] cache.dom().contains(e) && path_starts_with(path, e) ==> e.parts.len() <= root.parts.len(),
    ensures
        is_nearest(cache.insert(root, naming), path, root),
        cache.insert(root, naming)[root] == naming,
{
}

} // verus!
