//! What a source map shows at a path of names.
use vstd::prelude::*;

use crate::paths::{path_named, slash_text, PathParts};
use crate::projection::{is_transform_at, TransformModel};
use crate::sourcemap::{
    classed, bare_node, filtered, filtered_list, first_named, in_order, law_scripts_keep_the_order,
    lemma_place, list_made_absolute, made_absolute, mapped_file, place_of, rewritten, rewritten_list,
    script_path, service_children, with_script, with_service, with_transform, NodeModel, RootModel,
    ScriptFile,
};
use crate::text::{lemma_text_less_total, text_less, with_char};

verus! {

/// The class of an instance and the files that it comes from.
#[verifier::ext_equal]
pub struct Shown {
    pub class_name: Seq<char>,
    pub files: Seq<Seq<char>>,
}

pub open spec fn is_child(children: Seq<NodeModel>, name: Seq<char>, i: int) -> bool {
    0 <= i < children.len() && children[i].name == name
}

/// What is shown at a path of names below some instances.
pub open spec fn shown_at(children: Seq<NodeModel>, path: Seq<Seq<char>>) -> Option<Shown>
    decreases path.len(),
{
    if path.len() == 0 || !(exists|i: int| is_child(children, path[0], i)) {
        None
    } else {
        let node = children[choose|i: int| is_child(children, path[0], i)];
        if path.len() == 1 {
            Some(Shown { class_name: node.class_name, files: node.file_paths })
        } else {
            shown_at(node.children, path.skip(1))
        }
    }
}

/// No two instances under one have one name, however deep.
pub open spec fn named_apart(children: Seq<NodeModel>) -> bool
    decreases children,
{
    &&& forall|i: int, j: int|
        0 <= i < j < children.len() ==> (#[trigger] children[i]).name != (#[trigger] children[j]).name
    &&& forall|i: int| 0 <= i < children.len() ==> named_apart((#[trigger] children[i]).children)
}

/// The instances are in the order of their names, each once, however deep.
pub open spec fn tree_in_order(children: Seq<NodeModel>) -> bool
    decreases children,
{
    &&& in_order(children)
    &&& forall|i: int| 0 <= i < children.len() ==> tree_in_order((#[trigger] children[i]).children)
}

proof fn lemma_order_names_apart(children: Seq<NodeModel>)
    requires
        tree_in_order(children),
    ensures
        named_apart(children),
    decreases children,
{
    assert forall|i: int, j: int| 0 <= i < j < children.len() implies (#[trigger] children[i]).name
        != (#[trigger] children[j]).name by {
        lemma_text_less_total(children[i].name, children[j].name);
    }
    assert forall|i: int| 0 <= i < children.len() implies named_apart((#[trigger] children[i]).children) by {
        lemma_order_names_apart(children[i].children);
    }
}

/// What is shown at a path that starts with the name of an instance.
spec fn shown_in(node: NodeModel, path: Seq<Seq<char>>) -> Option<Shown> {
    if path.len() == 1 {
        Some(Shown { class_name: node.class_name, files: node.file_paths })
    } else {
        shown_at(node.children, path.skip(1))
    }
}

proof fn lemma_shown(children: Seq<NodeModel>, path: Seq<Seq<char>>, i: int)
    requires
        named_apart(children),
        path.len() > 0,
        is_child(children, path[0], i),
    ensures
        shown_at(children, path) == shown_in(children[i], path),
{
    let k = choose|k: int| is_child(children, path[0], k);
    assert(is_child(children, path[0], k));
    if k < i {
        assert(children[k].name != children[i].name);
    } else if i < k {
        assert(children[i].name != children[k].name);
    }
}

proof fn lemma_not_there(children: Seq<NodeModel>, name: Seq<char>)
    requires
        in_order(children),
        !(place_of(children, name, 0) < children.len() && children[place_of(children, name, 0)].name == name),
    ensures
        forall|i: int| !is_child(children, name, i),
{
    lemma_place(children, name, 0);
    let at = place_of(children, name, 0);
    assert forall|i: int| !is_child(children, name, i) by {
        if is_child(children, name, i) {
            lemma_text_less_total(name, name);
            if i < at {
                assert(text_less(children[i].name, name));
            } else if i > at {
                assert(text_less(children[at].name, children[i].name));
            }
        }
    }
}

/// What a path shows once a script was put at another: at the script's own path its class, unless that says
/// no more than that it is a folder, and its file behind those that were there.
pub open spec fn shown_with_script(
    old_shown: Option<Shown>,
    path: Seq<Seq<char>>,
    class_name: Seq<char>,
    file: Seq<char>,
    p: Seq<Seq<char>>,
) -> Option<Shown> {
    if p == path {
        let before = match old_shown {
            Some(x) => x,
            None => Shown { class_name: "Folder"@, files: Seq::empty() },
        };
        Some(
            Shown {
                class_name: if class_name == "Folder"@ {
                    before.class_name
                } else {
                    class_name
                },
                files: if before.files.contains(file) {
                    before.files
                } else {
                    before.files.push(file)
                },
            },
        )
    } else if old_shown is None && p.is_prefix_of(path) {
        Some(Shown { class_name: "Folder"@, files: Seq::empty() })
    } else {
        old_shown
    }
}

proof fn lemma_no_children(p: Seq<Seq<char>>)
    ensures
        shown_at(Seq::empty(), p) is None,
{
    if p.len() > 0 {
        assert forall|i: int| !is_child(Seq::empty(), p[0], i) by {}
    }
}

proof fn lemma_prefixes(p: Seq<Seq<char>>, path: Seq<Seq<char>>)
    requires
        p.len() > 0,
        path.len() > 0,
    ensures
        p.is_prefix_of(path) <==> p[0] == path[0] && p.skip(1).is_prefix_of(path.skip(1)),
        p == path <==> p[0] == path[0] && p.skip(1) == path.skip(1),
{
    if p[0] == path[0] && p.skip(1).is_prefix_of(path.skip(1)) {
        assert forall|k: int| 0 <= k < p.len() implies p[k] == path[k] by {
            if k > 0 {
                assert(p.skip(1)[k - 1] == path.skip(1)[k - 1]);
            }
        }
        assert(p =~= path.subrange(0, p.len() as int));
    }
    if p.is_prefix_of(path) {
        assert(p.skip(1) =~= path.skip(1).subrange(0, p.len() - 1));
    }
    if p[0] == path[0] && p.skip(1) == path.skip(1) {
        assert forall|k: int| 0 <= k < p.len() implies p[k] == path[k] by {
            if k > 0 {
                assert(p.skip(1)[k - 1] == path.skip(1)[k - 1]);
            }
        }
        assert(p.len() == path.len());
        assert(p =~= path);
    }
}

/// A script that is put at a path is shown there with its class and its file; every other path shows what it
/// showed, and what is new on the way is a folder without files. The names stay in order.
pub proof fn law_a_script_is_shown_at_its_path(
    children: Seq<NodeModel>,
    path: Seq<Seq<char>>,
    class_name: Seq<char>,
    file: Seq<char>,
    p: Seq<Seq<char>>,
)
    requires
        tree_in_order(children),
        path.len() > 0,
        p.len() > 0,
    ensures
        tree_in_order(with_script(children, path, class_name, file)),
        shown_at(with_script(children, path, class_name, file), p) == shown_with_script(
            shown_at(children, p),
            path,
            class_name,
            file,
            p,
        ),
    decreases path.len(),
{
    let after = with_script(children, path, class_name, file);
    let name = path[0];
    let at = place_of(children, name, 0);
    let found = at < children.len() && children[at].name == name;
    let class = if path.len() == 1 {
        class_name
    } else {
        "Folder"@
    };
    lemma_place(children, name, 0);
    lemma_order_names_apart(children);
    law_scripts_keep_the_order(children, path, class_name, file);
    if !found {
        lemma_not_there(children, name);
    }
    let first = if found {
        children[at]
    } else {
        bare_node(name, class)
    };
    let node = classed(first, class);
    let done = after[at];
    assert(done.name == name);
    assert(tree_in_order(first.children));
    let rest = path.skip(1);
    if path.len() > 1 {
        assert(done.children == with_script(node.children, rest, class_name, file));
        let inner = if p.len() > 1 {
            p.skip(1)
        } else {
            seq![name]
        };
        law_a_script_is_shown_at_its_path(node.children, rest, class_name, file, inner);
    }
    assert(tree_in_order(done.children));
    assert forall|i: int| 0 <= i < after.len() implies tree_in_order((#[trigger] after[i]).children) by {
        if i != at {
            if found || i < at {
                assert(after[i] == children[i]);
            } else {
                assert(after[i] == children[i - 1]);
            }
        }
    }
    lemma_order_names_apart(after);
    lemma_prefixes(p, path);
    if p[0] == name {
        assert(is_child(after, name, at));
        lemma_shown(after, p, at);
        if found {
            assert(is_child(children, name, at));
            lemma_shown(children, p, at);
        }
        if path.len() == 1 {
            assert(path.skip(1).len() == 0);
            if p.len() == 1 {
                assert(p.skip(1) =~= path.skip(1));
            } else {
                lemma_no_children(p.skip(1));
            }
        } else if p.len() == 1 {
            assert(p.skip(1).is_prefix_of(rest)) by {
                assert(p.skip(1) =~= rest.subrange(0, 0));
            }
        } else {
            lemma_no_children(p.skip(1));
        }
    } else {
        if exists|i: int| is_child(children, p[0], i) {
            let i = choose|i: int| is_child(children, p[0], i);
            lemma_shown(children, p, i);
            let j = if found || i < at {
                i
            } else {
                i + 1
            };
            assert(after[j] == children[i]);
            assert(is_child(after, p[0], j));
            lemma_shown(after, p, j);
        } else {
            assert forall|j: int| !is_child(after, p[0], j) by {
                if is_child(after, p[0], j) {
                    let i = if found || j < at {
                        j
                    } else {
                        j - 1
                    };
                    assert(after[j] == children[i]);
                    assert(is_child(children, p[0], i));
                }
            }
        }
    }
}

/// A script of the first `n` that stands at a path.
pub open spec fn stands_at(scripts: Seq<ScriptFile>, n: nat, p: Seq<Seq<char>>, i: int) -> bool {
    0 <= i < n && script_path(scripts[i]) == p
}

/// A source map of a service shows exactly the paths of its scripts and those on the way to them. At each path
/// it lists the files of the scripts that stand there, each once, and no others. The class is that of the last
/// script there whose class is not that of a folder; where there is none it is a folder.
pub proof fn law_a_service_shows_its_scripts(scripts: Seq<ScriptFile>, n: nat, p: Seq<Seq<char>>)
    requires
        n <= scripts.len(),
        p.len() > 0,
    ensures
        ({
            let tree = service_children(scripts, n);
            let shown = shown_at(tree, p);
            &&& tree_in_order(tree)
            &&& shown is Some <==> exists|i: int| 0 <= i < n && p.is_prefix_of(script_path(#[trigger] scripts[i]))
            &&& shown is Some ==> {
                &&& forall|f: Seq<char>| #[trigger]
                    shown->0.files.contains(f) <==> exists|i: int| #[trigger] stands_at(scripts, n, p, i) && scripts[i].file@ == f
                &&& shown->0.files.no_duplicates()
                &&& forall|i: int| #[trigger]
                    stands_at(scripts, n, p, i) && scripts[i].class_name@ != "Folder"@ && (forall|j: int|
                        i < j && #[trigger] stands_at(scripts, n, p, j) ==> scripts[j].class_name@ == "Folder"@)
                        ==> shown->0.class_name == scripts[i].class_name@
                &&& (forall|i: int| #[trigger] stands_at(scripts, n, p, i) ==> scripts[i].class_name@ == "Folder"@)
                    ==> shown->0.class_name == "Folder"@
            }
        }),
    decreases n,
{
    let tree = service_children(scripts, n);
    if n == 0 {
        lemma_no_children(p);
        assert(tree =~= Seq::empty());
    } else {
        let m = (n - 1) as nat;
        law_a_service_shows_its_scripts(scripts, m, p);
        let before = service_children(scripts, m);
        let x = scripts[n - 1];
        let path = script_path(x);
        assert forall|i: int| #[trigger] stands_at(scripts, n, p, i) <==> stands_at(scripts, m, p, i) || (i == n - 1 && path == p) by {}
        if path.len() > 0 {
            law_a_script_is_shown_at_its_path(before, path, x.class_name@, x.file@, p);
        } else {
            assert(!p.is_prefix_of(path));
            assert(path != p);
        }
        let old_shown = shown_at(before, p);
        let shown = shown_at(tree, p);
        assert(shown is Some <==> exists|i: int| 0 <= i < n && p.is_prefix_of(script_path(#[trigger] scripts[i]))) by {
            if p == path {
                assert(p.is_prefix_of(path)) by {
                    assert(p =~= path.subrange(0, p.len() as int));
                }
                assert(p.is_prefix_of(script_path(scripts[n - 1])));
            }
            if exists|i: int| 0 <= i < n && p.is_prefix_of(script_path(#[trigger] scripts[i])) {
                let i = choose|i: int| 0 <= i < n && p.is_prefix_of(script_path(#[trigger] scripts[i]));
                if i < m {
                    assert(old_shown is Some);
                }
            }
            if old_shown is Some {
                let i = choose|i: int| 0 <= i < m && p.is_prefix_of(script_path(#[trigger] scripts[i]));
                assert(0 <= i < n && p.is_prefix_of(script_path(scripts[i])));
            }
            if old_shown is None && p.is_prefix_of(path) {
                assert(p.is_prefix_of(script_path(scripts[n - 1])));
            }
        }
        if old_shown is None {
            assert forall|i: int| !stands_at(scripts, m, p, i) by {
                if stands_at(scripts, m, p, i) {
                    assert(p =~= script_path(scripts[i]).subrange(0, p.len() as int));
                    assert(p.is_prefix_of(script_path(scripts[i])));
                }
            }
        }
        if shown is Some {
            let files = shown->0.files;
            let old_files = if old_shown is Some {
                old_shown->0.files
            } else {
                Seq::empty()
            };
            assert forall|f: Seq<char>| #[trigger] files.contains(f) <==> exists|i: int| #[trigger]
                stands_at(scripts, n, p, i) && scripts[i].file@ == f by {
                assert(old_files.contains(f) <==> exists|i: int| #[trigger] stands_at(scripts, m, p, i) && scripts[i].file@ == f);
                if path == p {
                    assert(stands_at(scripts, n, p, n - 1));
                    if !old_files.contains(x.file@) {
                        assert(files == old_files.push(x.file@));
                        assert(files[old_files.len() as int] == x.file@);
                        if old_files.contains(f) {
                            let k = choose|k: int| 0 <= k < old_files.len() && old_files[k] == f;
                            assert(files[k] == f);
                        }
                        if files.contains(f) && f != x.file@ {
                            let k = choose|k: int| 0 <= k < files.len() && files[k] == f;
                            assert(old_files[k] == f);
                        }
                    }
                }
                if exists|i: int| #[trigger] stands_at(scripts, n, p, i) && scripts[i].file@ == f {
                    let i = choose|i: int| #[trigger] stands_at(scripts, n, p, i) && scripts[i].file@ == f;
                    if i < m {
                        assert(stands_at(scripts, m, p, i));
                    }
                }
                if exists|i: int| #[trigger] stands_at(scripts, m, p, i) && scripts[i].file@ == f {
                    let i = choose|i: int| #[trigger] stands_at(scripts, m, p, i) && scripts[i].file@ == f;
                    assert(stands_at(scripts, n, p, i));
                }
            }
            assert(files.no_duplicates());
            assert forall|i: int| #[trigger]
                stands_at(scripts, n, p, i) && scripts[i].class_name@ != "Folder"@ && (forall|j: int|
                    i < j && #[trigger] stands_at(scripts, n, p, j) ==> scripts[j].class_name@ == "Folder"@) implies shown->0.class_name
                == scripts[i].class_name@ by {
                if i < m {
                    assert(stands_at(scripts, m, p, i));
                    assert forall|j: int| i < j && #[trigger] stands_at(scripts, m, p, j) implies scripts[j].class_name@ == "Folder"@ by {
                        assert(stands_at(scripts, n, p, j));
                    }
                    if path == p {
                        assert(stands_at(scripts, n, p, n - 1));
                    }
                }
            }
            if forall|i: int| #[trigger] stands_at(scripts, n, p, i) ==> scripts[i].class_name@ == "Folder"@ {
                assert forall|i: int| #[trigger] stands_at(scripts, m, p, i) implies scripts[i].class_name@ == "Folder"@ by {
                    assert(stands_at(scripts, n, p, i));
                }
                if path == p {
                    assert(stands_at(scripts, n, p, n - 1));
                }
            }
        }
    }
}

proof fn lemma_first_named(children: Seq<NodeModel>, name: Seq<char>, i: int)
    requires
        0 <= i <= children.len(),
    ensures
        i <= first_named(children, name, i) <= children.len(),
        first_named(children, name, i) < children.len() ==> children[first_named(children, name, i)].name == name,
        first_named(children, name, i) == children.len() ==> forall|k: int|
            i <= k < children.len() ==> (#[trigger] children[k]).name != name,
    decreases children.len() - i,
{
    if i < children.len() && children[i].name != name {
        lemma_first_named(children, name, i + 1);
    }
}

/// A script that a rule made is shown at its target with its file and no other, and with its class below the
/// service. The service has its own name for a class. Every other path shows the files that it showed, and
/// its class; what is new between the service and the script is a folder without files.
pub proof fn law_a_made_script_is_shown_at_its_target(
    children: Seq<NodeModel>,
    path: Seq<Seq<char>>,
    service: bool,
    class_name: Seq<char>,
    file: Seq<char>,
    p: Seq<Seq<char>>,
)
    requires
        named_apart(children),
        path.len() > 0,
        p.len() > 0,
    ensures
        named_apart(with_transform(children, path, service, class_name, file)),
        ({
            let was = shown_at(children, p);
            let now = shown_at(with_transform(children, path, service, class_name, file), p);
            let class = if service && p.len() == 1 {
                path[0]
            } else if p == path {
                class_name
            } else {
                "Folder"@
            };
            &&& !p.is_prefix_of(path) ==> now == was
            &&& p.is_prefix_of(path) ==> {
                &&& now is Some
                &&& p == path ==> now->0.files == seq![file]
                &&& p != path && was is Some ==> now->0.files == was->0.files
                &&& p != path && was is None ==> now->0.files.len() == 0
                &&& class != "Folder"@ ==> now->0.class_name == class
                &&& class == "Folder"@ && was is Some ==> now->0.class_name == was->0.class_name
                &&& class == "Folder"@ && was is None ==> now->0.class_name == "Folder"@
            }
        }),
    decreases path.len(),
{
    let after = with_transform(children, path, service, class_name, file);
    let name = path[0];
    let at = first_named(children, name, 0);
    lemma_first_named(children, name, 0);
    let found = at < children.len();
    let class = if service {
        name
    } else if path.len() == 1 {
        class_name
    } else {
        "Folder"@
    };
    let first = if found {
        children[at]
    } else {
        bare_node(name, class)
    };
    let node = classed(first, class);
    let done = after[at];
    assert(done.name == name);
    let rest = path.skip(1);
    assert(named_apart(first.children));
    if path.len() > 1 {
        let inner = if p.len() > 1 {
            p.skip(1)
        } else {
            seq![name]
        };
        law_a_made_script_is_shown_at_its_target(node.children, rest, false, class_name, file, inner);
    }
    assert forall|i: int, j: int| 0 <= i < j < after.len() implies (#[trigger] after[i]).name != (#[trigger] after[j]).name by {
        if i != at {
            assert(after[i] == children[i]);
        }
        if j != at {
            assert(after[j] == children[j]);
        }
    }
    assert forall|i: int| 0 <= i < after.len() implies named_apart((#[trigger] after[i]).children) by {
        if i != at {
            assert(after[i] == children[i]);
        }
    }
    lemma_prefixes(p, path);
    if p[0] == name {
        assert(is_child(after, name, at));
        lemma_shown(after, p, at);
        if found {
            assert(is_child(children, name, at));
            lemma_shown(children, p, at);
        } else {
            assert forall|i: int| !is_child(children, name, i) by {}
        }
        if path.len() == 1 {
            if p.len() == 1 {
                assert(p.skip(1) =~= path.skip(1));
            } else {
                lemma_no_children(p.skip(1));
            }
        } else if p.len() == 1 {
            assert(p.skip(1) =~= rest.subrange(0, 0));
            assert(p.skip(1).is_prefix_of(rest));
        } else {
            lemma_no_children(p.skip(1));
        }
    } else {
        if exists|i: int| is_child(children, p[0], i) {
            let i = choose|i: int| is_child(children, p[0], i);
            lemma_shown(children, p, i);
            assert(after[i] == children[i]);
            assert(is_child(after, p[0], i));
            lemma_shown(after, p, i);
        } else {
            assert forall|j: int| !is_child(after, p[0], j) by {
                if is_child(after, p[0], j) {
                    assert(after[j] == children[j]);
                    assert(is_child(children, p[0], j));
                }
            }
        }
    }
}

/// A service's tree stands once it was put, in place of the one of its name or at the end; all others stay
/// where they are.
pub proof fn law_a_service_is_put_in_its_place(children: Seq<NodeModel>, name: Seq<char>, node: NodeModel, i: int)
    requires
        0 <= i <= children.len(),
        forall|k: int| 0 <= k < i ==> (#[trigger] children[k]).name != name,
    ensures
        ({
            let after = with_service(children, name, node, i);
            let there = exists|k: int| is_child(children, name, k);
            &&& there ==> after.len() == children.len() && exists|k: int| #[trigger]
                is_child(children, name, k) && after == children.update(k, node)
            &&& !there ==> after == children.push(node)
        }),
    decreases children.len() - i,
{
    if i < children.len() {
        if children[i].name == name {
            assert(is_child(children, name, i));
        } else {
            law_a_service_is_put_in_its_place(children, name, node, i + 1);
        }
    } else {
        assert forall|k: int| !is_child(children, name, k) by {}
    }
}

proof fn lemma_rewritten_list(
    list: Seq<NodeModel>,
    transforms: Seq<TransformModel>,
    project_root: RootModel,
    names: Map<Seq<char>, Seq<char>>,
    target: Seq<Seq<char>>,
    n: nat,
)
    requires
        n <= list.len(),
    ensures
        ({
            let r = rewritten_list(list, transforms, project_root, names, target, n);
            &&& r.len() == n
            &&& forall|i: int|
                0 <= i < n ==> #[trigger] r[i] == rewritten(list[i], transforms, project_root, names, target.push(list[i].name))
        }),
    decreases n,
{
    if n > 0 {
        lemma_rewritten_list(list, transforms, project_root, names, target, (n - 1) as nat);
    }
}

proof fn lemma_rewritten_apart(
    list: Seq<NodeModel>,
    transforms: Seq<TransformModel>,
    project_root: RootModel,
    names: Map<Seq<char>, Seq<char>>,
    target: Seq<Seq<char>>,
)
    requires
        named_apart(list),
    ensures
        named_apart(rewritten_list(list, transforms, project_root, names, target, list.len())),
    decreases list,
{
    lemma_rewritten_list(list, transforms, project_root, names, target, list.len());
    let r = rewritten_list(list, transforms, project_root, names, target, list.len());
    assert forall|i: int, j: int| 0 <= i < j < r.len() implies (#[trigger] r[i]).name != (#[trigger] r[j]).name by {
        assert(list[i].name != list[j].name);
    }
    assert forall|i: int| 0 <= i < r.len() implies named_apart((#[trigger] r[i]).children) by {
        lemma_rewritten_apart(list[i].children, transforms, project_root, names, target.push(list[i].name));
    }
}

/// The files that a path of a projection shows, as a project names them: one that a rule made shows the rule's
/// source, if it showed files at all, and every other file has its new name, where it has one.
pub open spec fn files_of_the_project(
    was: Shown,
    now: Shown,
    transforms: Seq<TransformModel>,
    project_root: RootModel,
    names: Map<Seq<char>, Seq<char>>,
    target: Seq<Seq<char>>,
) -> bool {
    &&& now.class_name == was.class_name
    &&& was.files.len() == 0 ==> now.files.len() == 0
    &&& forall|i: int| #[trigger]
        is_transform_at(transforms, target, i) && was.files.len() > 0 && (forall|j: int| #[trigger]
            is_transform_at(transforms, target, j) ==> j == i) ==> now.files == seq![mapped_file(project_root, transforms[i].source)]
    &&& (forall|i: int| !(#[trigger] is_transform_at(transforms, target, i))) ==> now.files.len() == was.files.len() && forall|k: int|
        0 <= k < was.files.len() ==> #[trigger] now.files[k] == if names.dom().contains(was.files[k]) {
            names[was.files[k]]
        } else {
            was.files[k]
        }
}

/// Rewriting the paths of a projection keeps every instance and its class, and gives each the files that the
/// project has for it.
pub proof fn law_rewriting_keeps_all_instances(
    list: Seq<NodeModel>,
    transforms: Seq<TransformModel>,
    project_root: RootModel,
    names: Map<Seq<char>, Seq<char>>,
    target: Seq<Seq<char>>,
    p: Seq<Seq<char>>,
)
    requires
        named_apart(list),
        p.len() > 0,
    ensures
        ({
            let was = shown_at(list, p);
            let now = shown_at(rewritten_list(list, transforms, project_root, names, target, list.len()), p);
            &&& now is Some <==> was is Some
            &&& was is Some ==> files_of_the_project(was->0, now->0, transforms, project_root, names, target + p)
        }),
    decreases p.len(),
{
    let r = rewritten_list(list, transforms, project_root, names, target, list.len());
    lemma_rewritten_list(list, transforms, project_root, names, target, list.len());
    lemma_rewritten_apart(list, transforms, project_root, names, target);
    if exists|i: int| is_child(list, p[0], i) {
        let i = choose|i: int| is_child(list, p[0], i);
        assert(r[i].name == list[i].name);
        assert(is_child(r, p[0], i));
        lemma_shown(list, p, i);
        lemma_shown(r, p, i);
        let deeper = target.push(list[i].name);
        if p.len() == 1 {
            assert(target + p =~= deeper);
            let was = shown_at(list, p)->0;
            let now = shown_at(r, p)->0;
            assert forall|k: int| #[trigger]
                is_transform_at(transforms, deeper, k) && was.files.len() > 0 && (forall|j: int| #[trigger]
                    is_transform_at(transforms, deeper, j) ==> j == k) implies now.files == seq![
                mapped_file(project_root, transforms[k].source),
            ] by {
                let c = choose|c: int| is_transform_at(transforms, deeper, c);
                assert(is_transform_at(transforms, deeper, c));
                assert(c == k);
            }
        } else {
            assert(target + p =~= deeper + p.skip(1));
            law_rewriting_keeps_all_instances(list[i].children, transforms, project_root, names, deeper, p.skip(1));
        }
    } else {
        assert forall|i: int| !is_child(r, p[0], i) by {
            if is_child(r, p[0], i) {
                assert(is_child(list, p[0], i));
            }
        }
    }
}

proof fn lemma_absolute_list(list: Seq<NodeModel>, project_root: PathParts, n: nat)
    requires
        n <= list.len(),
    ensures
        list_made_absolute(list, project_root, n).len() == n,
        forall|i: int|
            0 <= i < n ==> #[trigger] list_made_absolute(list, project_root, n)[i] == made_absolute(list[i], project_root),
    decreases n,
{
    if n > 0 {
        lemma_absolute_list(list, project_root, (n - 1) as nat);
    }
}

proof fn lemma_absolute_apart(list: Seq<NodeModel>, project_root: PathParts)
    requires
        named_apart(list),
    ensures
        named_apart(list_made_absolute(list, project_root, list.len())),
    decreases list,
{
    lemma_absolute_list(list, project_root, list.len());
    let r = list_made_absolute(list, project_root, list.len());
    assert forall|i: int, j: int| 0 <= i < j < r.len() implies (#[trigger] r[i]).name != (#[trigger] r[j]).name by {
        assert(list[i].name != list[j].name);
    }
    assert forall|i: int| 0 <= i < r.len() implies named_apart((#[trigger] r[i]).children) by {
        lemma_absolute_apart(list[i].children, project_root);
    }
}

/// Making paths absolute keeps every instance and its class; a file that starts at the root stays as it is, and
/// every other one is named from the project's directory.
pub proof fn law_absolute_paths_start_at_the_project(list: Seq<NodeModel>, project_root: PathParts, p: Seq<Seq<char>>)
    requires
        named_apart(list),
        p.len() > 0,
    ensures
        ({
            let was = shown_at(list, p);
            let now = shown_at(list_made_absolute(list, project_root, list.len()), p);
            &&& now is Some <==> was is Some
            &&& was is Some ==> {
                &&& now->0.class_name == was->0.class_name
                &&& now->0.files.len() == was->0.files.len()
                &&& forall|k: int|
                    0 <= k < was->0.files.len() ==> {
                        let file = was->0.files[k];
                        &&& path_named(file).rooted ==> #[trigger] now->0.files[k] == file
                        &&& !path_named(file).rooted ==> now->0.files[k] == with_char(
                            slash_text(
                                PathParts { rooted: project_root.rooted, parts: project_root.parts + path_named(file).parts },
                            ),
                            '\\',
                            '/',
                        )
                    }
            }
        }),
    decreases p.len(),
{
    let r = list_made_absolute(list, project_root, list.len());
    lemma_absolute_list(list, project_root, list.len());
    lemma_absolute_apart(list, project_root);
    if exists|i: int| is_child(list, p[0], i) {
        let i = choose|i: int| is_child(list, p[0], i);
        assert(r[i].name == list[i].name);
        assert(is_child(r, p[0], i));
        lemma_shown(list, p, i);
        lemma_shown(r, p, i);
        if p.len() > 1 {
            law_absolute_paths_start_at_the_project(list[i].children, project_root, p.skip(1));
        }
    } else {
        assert forall|i: int| !is_child(r, p[0], i) by {
            if is_child(r, p[0], i) {
                assert(is_child(list, p[0], i));
            }
        }
    }
}

/// The name of an instance or one of its files was hit.
pub open spec fn is_hit_itself(name: Seq<char>, files: Seq<Seq<char>>, hits: Map<Seq<char>, bool>) -> bool {
    ||| hits.dom().contains(name) && hits[name]
    ||| exists|i: int| 0 <= i < files.len() && hits.dom().contains(#[trigger] files[i]) && hits[files[i]]
}

proof fn lemma_filtered_list(list: Seq<NodeModel>, hits: Map<Seq<char>, bool>, n: nat)
    requires
        n <= list.len(),
        named_apart(list),
    ensures
        ({
            let r = filtered_list(list, hits, n);
            &&& forall|k: int|
                0 <= k < r.len() ==> exists|i: int|
                    0 <= i < n && #[trigger] r[k] == filtered(#[trigger] list[i], hits) && (is_hit_itself(
                        list[i].name,
                        list[i].file_paths,
                        hits,
                    ) || filtered(list[i], hits).children.len() > 0)
            &&& forall|i: int|
                0 <= i < n && (is_hit_itself(list[i].name, list[i].file_paths, hits) || filtered(
                    #[trigger] list[i],
                    hits,
                ).children.len() > 0) ==> r.contains(filtered(list[i], hits))
            &&& named_apart(r)
        }),
    decreases list, n,
{
    if n > 0 {
        lemma_filtered_list(list, hits, (n - 1) as nat);
        let before = filtered_list(list, hits, (n - 1) as nat);
        let r = filtered_list(list, hits, n);
        let node = list[n - 1];
        let kept = filtered(node, hits);
        lemma_filtered_list(node.children, hits, node.children.len());
        let stays = is_hit_itself(node.name, node.file_paths, hits) || kept.children.len() > 0;
        assert(stays ==> r == before.push(kept));
        assert(!stays ==> r == before);
        if stays {
            assert(r[before.len() as int] == kept);
            assert forall|x: NodeModel| #[trigger] before.contains(x) implies r.contains(x) by {
                let k = choose|k: int| 0 <= k < before.len() && before[k] == x;
                assert(r[k] == x);
            }
            assert forall|k: int| 0 <= k < r.len() implies exists|i: int|
                0 <= i < n && #[trigger] r[k] == filtered(#[trigger] list[i], hits) && (is_hit_itself(
                    list[i].name,
                    list[i].file_paths,
                    hits,
                ) || filtered(list[i], hits).children.len() > 0) by {
                if k < before.len() {
                    assert(r[k] == before[k]);
                } else {
                    assert(r[k] == filtered(list[n - 1], hits));
                }
            }
            assert forall|a: int, b: int| 0 <= a < b < r.len() implies (#[trigger] r[a]).name != (#[trigger] r[b]).name by {
                assert(r[a] == before[a]);
                if b < before.len() {
                    assert(r[b] == before[b]);
                } else {
                    let i = choose|i: int|
                        0 <= i < n - 1 && before[a] == filtered(#[trigger] list[i], hits) && (is_hit_itself(
                            list[i].name,
                            list[i].file_paths,
                            hits,
                        ) || filtered(list[i], hits).children.len() > 0);
                    assert(list[i].name != list[n - 1].name);
                }
            }
            assert forall|a: int| 0 <= a < r.len() implies named_apart((#[trigger] r[a]).children) by {
                if a < before.len() {
                    assert(r[a] == before[a]);
                }
            }
        }
    }
}

/// A path goes on from another to an instance that was hit.
pub open spec fn is_hit_below(list: Seq<NodeModel>, hits: Map<Seq<char>, bool>, p: Seq<Seq<char>>, q: Seq<Seq<char>>) -> bool {
    p.is_prefix_of(q) && shown_at(list, q) is Some && is_hit_itself(q.last(), shown_at(list, q)->0.files, hits)
}

/// A filter keeps a path exactly where the instance there, or one at a longer path, was hit by its name or by
/// a file, and shows it as it was.
pub proof fn law_a_filter_keeps_what_was_hit(list: Seq<NodeModel>, hits: Map<Seq<char>, bool>, p: Seq<Seq<char>>)
    requires
        named_apart(list),
        p.len() > 0,
    ensures
        ({
            let was = shown_at(list, p);
            let now = shown_at(filtered_list(list, hits, list.len()), p);
            &&& now is Some ==> now == was
            &&& now is Some <==> exists|q: Seq<Seq<char>>| #[trigger] is_hit_below(list, hits, p, q)
        }),
    decreases p.len(),
{
    let r = filtered_list(list, hits, list.len());
    lemma_filtered_list(list, hits, list.len());
    if exists|i: int| is_child(list, p[0], i) {
        let i = choose|i: int| is_child(list, p[0], i);
        let node = list[i];
        let kept = filtered(node, hits);
        assert(named_apart(node.children));
        lemma_shown(list, p, i);
        lemma_filtered_list(node.children, hits, node.children.len());
        let stays = is_hit_itself(node.name, node.file_paths, hits) || kept.children.len() > 0;
        if stays {
            assert(r.contains(kept));
            let k = choose|k: int| 0 <= k < r.len() && r[k] == kept;
            assert(is_child(r, p[0], k));
            lemma_shown(r, p, k);
        } else {
            assert forall|k: int| !is_child(r, p[0], k) by {
                if is_child(r, p[0], k) {
                    let j = choose|j: int|
                        0 <= j < list.len() && r[k] == filtered(#[trigger] list[j], hits) && (is_hit_itself(
                            list[j].name,
                            list[j].file_paths,
                            hits,
                        ) || filtered(list[j], hits).children.len() > 0);
                    assert(list[j].name == list[i].name);
                    if i < j {
                        assert(list[i].name != list[j].name);
                    } else if j < i {
                        assert(list[j].name != list[i].name);
                    }
                }
            }
        }
        if p.len() == 1 {
            if stays {
                lemma_kept_for_a_hit(list, i, hits);
                let q = choose|q: Seq<Seq<char>>|
                    q.len() > 0 && q[0] == node.name && #[trigger] shown_at(list, q) is Some && is_hit_itself(
                        q.last(),
                        shown_at(list, q)->0.files,
                        hits,
                    );
                assert(p =~= q.subrange(0, 1));
                assert(is_hit_below(list, hits, p, q));
            }
            if exists|q: Seq<Seq<char>>| #[trigger] is_hit_below(list, hits, p, q) {
                let q = choose|q: Seq<Seq<char>>| #[trigger] is_hit_below(list, hits, p, q);
                assert(q[0] == p[0]);
                lemma_hit_is_kept(list, i, hits, q);
            }
            assert(now_matches(list, hits, p));
        } else {
            let rest = p.skip(1);
            law_a_filter_keeps_what_was_hit(node.children, hits, rest);
            let inner = shown_at(filtered_list(node.children, hits, node.children.len()), rest);
            if !stays {
                assert(kept.children =~= Seq::empty());
                lemma_no_children(rest);
                assert(inner is None);
            }
            assert(shown_at(r, p) == inner);
            if inner is Some {
                let q = choose|q: Seq<Seq<char>>| #[trigger] is_hit_below(node.children, hits, rest, q);
                let whole = seq![p[0]] + q;
                assert(whole.skip(1) =~= q);
                lemma_shown(list, whole, i);
                assert(whole.last() == q.last());
                lemma_prefixes(p, whole);
                assert(is_hit_below(list, hits, p, whole));
            }
            if exists|q: Seq<Seq<char>>| #[trigger] is_hit_below(list, hits, p, q) {
                let q = choose|q: Seq<Seq<char>>| #[trigger] is_hit_below(list, hits, p, q);
                lemma_prefixes(p, q);
                lemma_shown(list, q, i);
                assert(q.len() >= p.len());
                assert(q.skip(1).last() == q.last());
                assert(is_hit_below(node.children, hits, rest, q.skip(1)));
            }
            assert(now_matches(list, hits, p));
        }
    } else {
        assert forall|k: int| !is_child(r, p[0], k) by {
            if is_child(r, p[0], k) {
                let j = choose|j: int|
                    0 <= j < list.len() && r[k] == filtered(#[trigger] list[j], hits) && (is_hit_itself(
                        list[j].name,
                        list[j].file_paths,
                        hits,
                    ) || filtered(list[j], hits).children.len() > 0);
                assert(is_child(list, p[0], j));
            }
        }
        assert forall|q: Seq<Seq<char>>| !(#[trigger] is_hit_below(list, hits, p, q)) by {
            if q.len() > 0 {
                lemma_prefixes(p, q);
            }
        }
    }
}

spec fn now_matches(list: Seq<NodeModel>, hits: Map<Seq<char>, bool>, p: Seq<Seq<char>>) -> bool {
    let was = shown_at(list, p);
    let now = shown_at(filtered_list(list, hits, list.len()), p);
    &&& now is Some ==> now == was
    &&& now is Some <==> exists|q: Seq<Seq<char>>| #[trigger] is_hit_below(list, hits, p, q)
}

/// What is kept has a hit at its name or below.
proof fn lemma_kept_for_a_hit(list: Seq<NodeModel>, i: int, hits: Map<Seq<char>, bool>)
    requires
        named_apart(list),
        0 <= i < list.len(),
        is_hit_itself(list[i].name, list[i].file_paths, hits) || filtered(list[i], hits).children.len() > 0,
    ensures
        exists|q: Seq<Seq<char>>|
            q.len() > 0 && q[0] == list[i].name && #[trigger] shown_at(list, q) is Some && is_hit_itself(
                q.last(),
                shown_at(list, q)->0.files,
                hits,
            ),
    decreases list[i],
{
    let node = list[i];
    assert(is_child(list, node.name, i));
    if is_hit_itself(node.name, node.file_paths, hits) {
        let q = seq![node.name];
        lemma_shown(list, q, i);
        assert(q.last() == node.name);
        assert(shown_at(list, q) is Some);
    } else {
        let r = filtered_list(node.children, hits, node.children.len());
        lemma_filtered_list(node.children, hits, node.children.len());
        let first = r[0];
        let j = choose|j: int|
            0 <= j < node.children.len() && r[0] == filtered(#[trigger] node.children[j], hits) && (is_hit_itself(
                node.children[j].name,
                node.children[j].file_paths,
                hits,
            ) || filtered(node.children[j], hits).children.len() > 0);
        lemma_kept_for_a_hit(node.children, j, hits);
        let q = choose|q: Seq<Seq<char>>|
            q.len() > 0 && q[0] == node.children[j].name && #[trigger] shown_at(node.children, q) is Some && is_hit_itself(
                q.last(),
                shown_at(node.children, q)->0.files,
                hits,
            );
        let whole = seq![node.name] + q;
        assert(whole.skip(1) =~= q);
        lemma_shown(list, whole, i);
        assert(whole.last() == q.last());
        assert(shown_at(list, whole) is Some);
    }
}

/// An instance with a hit at its name or below is kept.
proof fn lemma_hit_is_kept(list: Seq<NodeModel>, i: int, hits: Map<Seq<char>, bool>, q: Seq<Seq<char>>)
    requires
        named_apart(list),
        q.len() > 0,
        is_child(list, q[0], i),
        shown_at(list, q) is Some,
        is_hit_itself(q.last(), shown_at(list, q)->0.files, hits),
    ensures
        is_hit_itself(list[i].name, list[i].file_paths, hits) || filtered(list[i], hits).children.len() > 0,
    decreases q.len(),
{
    lemma_shown(list, q, i);
    let node = list[i];
    if q.len() > 1 {
        let rest = q.skip(1);
        assert(exists|j: int| is_child(node.children, rest[0], j));
        let j = choose|j: int| is_child(node.children, rest[0], j);
        assert(rest.last() == q.last());
        lemma_hit_is_kept(node.children, j, hits, rest);
        lemma_filtered_list(node.children, hits, node.children.len());
        assert(filtered_list(node.children, hits, node.children.len()).contains(filtered(node.children[j], hits)));
    }
}

} // verus!
