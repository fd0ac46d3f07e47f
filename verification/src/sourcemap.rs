//! Source maps: the tree of instances with the files that they come from.
use vstd::prelude::*;

use crate::filter::{glob_match, match_glob, portable_glob};
use crate::link_apply::value_of;
use crate::order::{sort_ranked, sorted, views, Ranked};
use crate::paths::{
    joined_path, last_name, opt_path, path_after, path_from_text, path_named, path_starts_with, path_views, slash_text, FilePath, PathParts,
};
use crate::links::opt_text;
use crate::project::{key_at, FactModel, Files};
use crate::projection::{is_transform_at, script_views, ProjectionStage, ScriptTransformModel, TransformModel, TransformedScript};
use crate::table::Table;
use crate::text::{
    chars_of, clone_texts, holds_text, lemma_text_less_total, lemma_text_less_transitive, lemma_texts_push, less, replace_char, same, starts_with, text_from, text_less,
    texts, trim, trimmed, with_char,
};

verus! {

broadcast use vstd::seq_lib::group_seq_properties;

/// An instance with the files that it comes from.
pub struct SourcemapNode {
    pub name: String,
    pub class_name: String,
    pub file_paths: Vec<String>,
    pub children: Vec<SourcemapNode>,
}

#[verifier::ext_equal]
pub struct NodeModel {
    pub name: Seq<char>,
    pub class_name: Seq<char>,
    pub file_paths: Seq<Seq<char>>,
    pub children: Seq<NodeModel>,
}

/// An instance without files or children.
pub open spec fn bare_node(name: Seq<char>, class_name: Seq<char>) -> NodeModel {
    NodeModel { name, class_name, file_paths: Seq::empty(), children: Seq::empty() }
}

impl SourcemapNode {
    pub open spec fn model(self) -> NodeModel
        decreases self,
    {
        NodeModel {
            name: self.name@,
            class_name: self.class_name@,
            file_paths: texts(self.file_paths@),
            children: nodes(self.children@),
        }
    }
}

pub open spec fn nodes(v: Seq<SourcemapNode>) -> Seq<NodeModel>
    decreases v,
{
    Seq::new(
        v.len(),
        |i: int|
            if 0 <= i < v.len() {
                v[i].model()
            } else {
                bare_node(Seq::empty(), Seq::empty())
            },
    )
}

impl View for SourcemapNode {
    type V = NodeModel;

    open spec fn view(&self) -> NodeModel {
        self.model()
    }
}

proof fn lemma_nodes_push(v: Seq<SourcemapNode>, x: SourcemapNode)
    ensures
        nodes(v.push(x)) == nodes(v).push(x@),
{
    assert(nodes(v.push(x)) =~= nodes(v).push(x@));
}

proof fn lemma_nodes_insert(v: Seq<SourcemapNode>, at: int, x: SourcemapNode)
    requires
        0 <= at <= v.len(),
    ensures
        nodes(v.insert(at, x)) == nodes(v).insert(at, x@),
{
    assert(nodes(v.insert(at, x)) =~= nodes(v).insert(at, x@));
}

proof fn lemma_nodes_remove(v: Seq<SourcemapNode>, at: int)
    requires
        0 <= at < v.len(),
    ensures
        nodes(v.remove(at)) == nodes(v).remove(at),
{
    assert(nodes(v.remove(at)) =~= nodes(v).remove(at));
}

pub fn new_node(name: &str, class_name: &str) -> (r: SourcemapNode)
    ensures
        r@ == bare_node(name@, class_name@),
{
    let r = SourcemapNode {
        name: name.to_owned(),
        class_name: class_name.to_owned(),
        file_paths: Vec::new(),
        children: Vec::new(),
    };
    assert(nodes(r.children@) =~= Seq::empty());
    assert(texts(r.file_paths@) =~= Seq::empty());
    r
}

/// The directory that files are named from. Where a file system takes several spellings of a path as one,
/// with what was found of its files.
pub struct MapRoot {
    pub path: FilePath,
    pub spellings: Option<Files>,
}

#[verifier::ext_equal]
pub struct RootModel {
    pub path: PathParts,
    pub spellings: Option<Map<PathParts, FactModel>>,
}

impl View for MapRoot {
    type V = RootModel;

    open spec fn view(&self) -> RootModel {
        RootModel {
            path: self.path@,
            spellings: match self.spellings {
                Some(files) => Some(files@),
                None => None,
            },
        }
    }
}

/// How many bytes a character takes in a text.
pub open spec fn char_width(c: char) -> nat {
    if (c as u32) < 0x80 {
        1
    } else if (c as u32) < 0x800 {
        2
    } else if (c as u32) < 0x1_0000 {
        3
    } else {
        4
    }
}

/// How many bytes the characters from the `k`th on take.
pub open spec fn width_from(s: Seq<char>, k: int) -> nat
    decreases s.len() - k,
{
    if k < 0 || k >= s.len() {
        0
    } else {
        char_width(s[k]) + width_from(s, k + 1)
    }
}

/// The end of a text that takes so many bytes, looked for from the `k`th character back.
pub open spec fn end_of_width(s: Seq<char>, width: nat, k: int) -> Option<Seq<char>>
    decreases k + 1,
{
    if k < 0 || k > s.len() {
        None
    } else if width_from(s, k) == width {
        Some(s.skip(k))
    } else {
        end_of_width(s, width, k - 1)
    }
}

/// A text without slashes at its start.
pub open spec fn without_slashes(s: Seq<char>) -> Seq<char>
    decreases s.len(),
{
    if s.len() > 0 && s[0] == '/' {
        without_slashes(s.drop_first())
    } else {
        s
    }
}

/// The end of a path's text that stands below a root by their keys.
pub open spec fn spelled_below(root_key: Seq<char>, key: Seq<char>, text: Seq<char>) -> Option<Seq<char>> {
    if root_key.is_prefix_of(key) {
        end_of_width(text, width_from(without_slashes(key.skip(root_key.len() as int)), 0), text.len() as int)
    } else {
        None
    }
}

/// A file as a source map names it: from the project's directory where it is below it, in that spelling or
/// in another.
pub open spec fn mapped_file(root: RootModel, path: PathParts) -> Seq<char> {
    let text = with_char(slash_text(path), '\\', '/');
    if path_starts_with(path, root.path) {
        with_char(slash_text(path_after(path, root.path)), '\\', '/')
    } else {
        match root.spellings {
            None => text,
            Some(files) => match spelled_below(key_at(files, root.path), key_at(files, path), text) {
                Some(end) => end,
                None => text,
            },
        }
    }
}

fn measure(c: char) -> (r: u128)
    ensures
        r == char_width(c),
{
    let n = c as u32;
    if n < 0x80 {
        1
    } else if n < 0x800 {
        2
    } else if n < 0x1_0000 {
        3
    } else {
        4
    }
}

fn text_width(chars: &Vec<char>, from: usize) -> (r: u128)
    requires
        from <= chars@.len(),
    ensures
        r == width_from(chars@, from as int),
{
    let count: usize = chars.len();
    let mut k: usize = count;
    let mut width: u128 = 0;
    while k > from
        invariant
            from <= k <= count,
            count == chars@.len(),
            width == width_from(chars@, k as int),
            width <= 4 * (count - k),
        decreases k,
    {
        k -= 1;
        width = width + measure(chars[k]);
    }
    width
}

fn find_end(text: &str, width: u128) -> (r: Option<String>)
    ensures
        opt_text(r) == end_of_width(text@, width as nat, text@.len() as int),
{
    let chars = chars_of(text);
    let count: usize = chars.len();
    let mut k: usize = count;
    let mut found: u128 = 0;
    loop
        invariant
            k <= count,
            count == chars@.len(),
            chars@ == text@,
            found == width_from(chars@, k as int),
            found <= 4 * (count - k),
            end_of_width(text@, width as nat, text@.len() as int) == end_of_width(text@, width as nat, k as int),
        decreases k,
    {
        if found == width {
            let end = text_from(&chars, k, chars.len());
            assert(chars@.subrange(k as int, chars@.len() as int) =~= text@.skip(k as int));
            return Some(end);
        }
        if k == 0 {
            assert(end_of_width(text@, width as nat, -1) is None);
            return None;
        }
        k -= 1;
        found = found + measure(chars[k]);
    }
}

fn find_below(root_key: &str, key: &str, text: &str) -> (r: Option<String>)
    ensures
        opt_text(r) == spelled_below(root_key@, key@, text@),
{
    if !starts_with(key, root_key) {
        return None;
    }
    let chars = chars_of(key);
    let mut from: usize = chars_of(root_key).len();
    let ghost tail = without_slashes(key@.skip(root_key@.len() as int));
    while from < chars.len() && chars[from] == '/'
        invariant
            from <= chars@.len(),
            chars@ == key@,
            tail == without_slashes(key@.skip(from as int)),
        decreases chars.len() - from,
    {
        assert(key@.skip(from as int).drop_first() =~= key@.skip(from + 1));
        from += 1;
    }
    proof {
        assert(tail =~= key@.skip(from as int));
        lemma_width_of_rest(key@, from as int, 0);
    }
    find_end(text, text_width(&chars, from))
}

proof fn lemma_width_of_rest(s: Seq<char>, from: int, k: int)
    requires
        0 <= from <= s.len(),
        0 <= k <= s.len() - from,
    ensures
        width_from(s.skip(from), k) == width_from(s, from + k),
    decreases s.len() - from - k,
{
    if k < s.len() - from {
        assert(s.skip(from)[k] == s[from + k]);
        lemma_width_of_rest(s, from, k + 1);
    }
}

/// Names a file as a source map does.
pub fn path_to_sourcemap_relative(project_root: &MapRoot, path: &FilePath) -> (r: String)
    ensures
        r@ == mapped_file(project_root@, path@),
{
    if let Some(relative) = path.strip_prefix(&project_root.path) {
        return replace_char(&relative.to_slash(), '\\', '/');
    }
    let text = replace_char(&path.to_slash(), '\\', '/');
    if let Some(files) = &project_root.spellings {
        let root_key = files.key(&project_root.path);
        let key = files.key(path);
        if let Some(end) = find_below(&root_key, &key, &text) {
            return end;
        }
    }
    text
}

/// The name of the tree of a project.
pub open spec fn root_name(project_root: PathParts) -> Seq<char> {
    let name = trimmed(last_name(project_root));
    if name.len() == 0 {
        "game"@
    } else {
        name
    }
}

/// Makes the empty tree of a project.
pub fn make_sourcemap_root(project_root: &FilePath) -> (r: SourcemapNode)
    ensures
        r@ == bare_node(root_name(project_root@), "DataModel"@),
{
    let name = trim(&project_root.file_name());
    if name.as_str().is_empty() {
        new_node("game", "DataModel")
    } else {
        new_node(&name, "DataModel")
    }
}

/// An instance that gets a class, unless it is told only that it holds others.
pub open spec fn classed(node: NodeModel, class_name: Seq<char>) -> NodeModel {
    if class_name == "Folder"@ {
        node
    } else {
        NodeModel { class_name, ..node }
    }
}

/// An instance that comes from one more file.
pub open spec fn with_file(node: NodeModel, file: Seq<char>) -> NodeModel {
    if node.file_paths.contains(file) {
        node
    } else {
        NodeModel { file_paths: node.file_paths.push(file), ..node }
    }
}

/// The first child whose name does not come before a name.
pub open spec fn place_of(children: Seq<NodeModel>, name: Seq<char>, from: int) -> int
    decreases children.len() - from,
{
    if from < 0 || from >= children.len() || !text_less(children[from].name, name) {
        from
    } else {
        place_of(children, name, from + 1)
    }
}

/// The children, kept in the order of names, after a script was put at a path below them.
pub open spec fn with_script(children: Seq<NodeModel>, path: Seq<Seq<char>>, class_name: Seq<char>, file: Seq<char>) -> Seq<NodeModel>
    decreases path.len(),
{
    if path.len() == 0 {
        children
    } else {
        let name = path[0];
        let at = place_of(children, name, 0);
        let found = at < children.len() && children[at].name == name;
        let class = if path.len() == 1 {
            class_name
        } else {
            "Folder"@
        };
        let node = classed(
            if found {
                children[at]
            } else {
                bare_node(name, class)
            },
            class,
        );
        let done = if path.len() == 1 {
            with_file(node, file)
        } else {
            NodeModel { children: with_script(node.children, path.skip(1), class_name, file), ..node }
        };
        if found {
            children.update(at, done)
        } else {
            children.insert(at, done)
        }
    }
}

fn set_class(node: &mut SourcemapNode, class_name: &str)
    ensures
        final(node)@ == classed(old(node)@, class_name@),
        final(node).children == old(node).children,
{
    if !same(class_name, "Folder") {
        node.class_name = class_name.to_owned();
    }
    assert(node@ =~= classed(old(node)@, class_name@));
}

fn add_file(node: &mut SourcemapNode, file: &str)
    ensures
        final(node)@ == with_file(old(node)@, file@),
{
    if !holds_text(&node.file_paths, file) {
        let text = file.to_owned();
        proof {
            lemma_texts_push(node.file_paths@, text);
        }
        node.file_paths.push(text);
    }
    assert(node@ =~= with_file(old(node)@, file@));
}

fn place_for(children: &Vec<SourcemapNode>, name: &str) -> (r: usize)
    ensures
        r == place_of(nodes(children@), name@, 0),
        r <= children@.len(),
{
    let ghost all = nodes(children@);
    let mut i: usize = 0;
    while i < children.len() && less(&children[i].name, name)
        invariant
            i <= children.len(),
            all == nodes(children@),
            all.len() == children@.len(),
            place_of(all, name@, 0) == place_of(all, name@, i as int),
        decreases children.len() - i,
    {
        assert(all[i as int] == children@[i as int]@);
        i += 1;
    }
    proof {
        if i < children@.len() {
            assert(all[i as int] == children@[i as int]@);
        }
    }
    i
}

/// Puts a script at a path below some instances, which are kept in the order of names.
pub fn insert_script(children: &mut Vec<SourcemapNode>, path: &Vec<String>, from: usize, class_name: &str, file: &str)
    requires
        from <= path@.len(),
    ensures
        nodes(final(children)@) == with_script(nodes(old(children)@), texts(path@).skip(from as int), class_name@, file@),
    decreases path@.len() - from,
{
    let ghost all = nodes(children@);
    let ghost names = texts(path@).skip(from as int);
    assert(names.len() == path@.len() - from);
    if from == path.len() {
        return;
    }
    assert(names[0] == path@[from as int]@);
    let at = place_for(children, &path[from]);
    let last = from + 1 == path.len();
    let class = if last {
        class_name
    } else {
        "Folder"
    };
    assert(all.len() == children@.len());
    let found = at < children.len() && same(&children[at].name, &path[from]);
    let ghost start = children@;
    proof {
        if at < children@.len() {
            assert(all[at as int] == children@[at as int]@);
        }
    }
    let mut node = if found {
        proof {
            lemma_nodes_remove(children@, at as int);
        }
        children.remove(at)
    } else {
        new_node(&path[from], class)
    };
    let ghost rest = children@;
    set_class(&mut node, class);
    let ghost ready = node@;
    if last {
        add_file(&mut node, file);
    } else {
        let mut inner: Vec<SourcemapNode> = Vec::new();
        std::mem::swap(&mut node.children, &mut inner);
        assert(nodes(inner@) == ready.children);
        insert_script(&mut inner, path, from + 1, class_name, file);
        node.children = inner;
        assert(names.skip(1) =~= texts(path@).skip(from + 1));
        assert(node@ =~= (NodeModel { children: with_script(ready.children, names.skip(1), class_name@, file@), ..ready }));
    }
    let ghost done = node@;
    proof {
        lemma_nodes_insert(rest, at as int, node);
    }
    children.insert(at, node);
    proof {
        if found {
            assert(all.remove(at as int).insert(at as int, done) =~= all.update(at as int, done));
        }
    }
}

/// Names, in order and each once.
pub open spec fn in_order(children: Seq<NodeModel>) -> bool {
    forall|i: int, j: int|
        0 <= i < j < children.len() ==> text_less((#[trigger] children[i]).name, (#[trigger] children[j]).name)
}

pub proof fn lemma_place(children: Seq<NodeModel>, name: Seq<char>, from: int)
    requires
        0 <= from <= children.len(),
    ensures
        from <= place_of(children, name, from) <= children.len(),
        forall|i: int| from <= i < place_of(children, name, from) ==> text_less((#[trigger] children[i]).name, name),
        place_of(children, name, from) < children.len() ==> !text_less(children[place_of(children, name, from)].name, name),
    decreases children.len() - from,
{
    if from < children.len() && text_less(children[from].name, name) {
        lemma_place(children, name, from + 1);
    }
}

/// Putting a script somewhere keeps the names in order and each once.
pub proof fn law_scripts_keep_the_order(children: Seq<NodeModel>, path: Seq<Seq<char>>, class_name: Seq<char>, file: Seq<char>)
    requires
        in_order(children),
    ensures
        in_order(with_script(children, path, class_name, file)),
{
    if path.len() > 0 {
        let name = path[0];
        let at = place_of(children, name, 0);
        lemma_place(children, name, 0);
        let after = with_script(children, path, class_name, file);
        let found = at < children.len() && children[at].name == name;
        if found {
            assert forall|i: int, j: int| 0 <= i < j < after.len() implies text_less(
                (#[trigger] after[i]).name,
                (#[trigger] after[j]).name,
            ) by {
                assert(after[i].name == children[i].name && after[j].name == children[j].name);
            }
        } else {
            assert forall|i: int, j: int| 0 <= i < j < after.len() implies text_less(
                (#[trigger] after[i]).name,
                (#[trigger] after[j]).name,
            ) by {
                if i < at && j > at {
                    assert(text_less(children[i].name, children[j - 1].name));
                } else if i < at && j < at {
                    assert(text_less(children[i].name, children[j].name));
                } else if i > at {
                    assert(text_less(children[i - 1].name, children[j - 1].name));
                } else if i == at {
                    lemma_text_less_total(children[at].name, name);
                    if j - 1 > at {
                        assert(text_less(children[at].name, children[j - 1].name));
                        lemma_text_less_transitive(name, children[at].name, children[j - 1].name);
                    }
                }
            }
        }
    }
}

/// A script among the files of a service: the directories above it, its class and name, as its file's
/// name gives them, and the file. One without a name stands for its directory.
pub struct ScriptFile {
    pub directories: Vec<String>,
    pub class_name: String,
    pub name: Option<String>,
    pub file: String,
}

/// Where a script stands below its service.
pub open spec fn script_path(script: ScriptFile) -> Seq<Seq<char>> {
    match script.name {
        Some(name) => texts(script.directories@).push(name@),
        None => texts(script.directories@),
    }
}

/// The instances below a service after the first `n` scripts.
pub open spec fn service_children(scripts: Seq<ScriptFile>, n: nat) -> Seq<NodeModel>
    decreases n,
{
    if n == 0 {
        Seq::empty()
    } else {
        with_script(
            service_children(scripts, (n - 1) as nat),
            script_path(scripts[n - 1]),
            scripts[n - 1].class_name@,
            scripts[n - 1].file@,
        )
    }
}

/// Builds the tree of a service from its scripts; nothing where there are none.
pub fn build_service_sourcemap(service: &str, scripts: &Vec<ScriptFile>) -> (r: Option<SourcemapNode>)
    ensures
        ({
            let children = service_children(scripts@, scripts@.len());
            match r {
                Some(node) => children.len() > 0 && node@ == (NodeModel { children, ..bare_node(service@, service@) }),
                None => children.len() == 0,
            }
        }),
{
    let mut root = new_node(service, service);
    let mut children: Vec<SourcemapNode> = Vec::new();
    assert(nodes(children@) =~= Seq::empty());
    let mut i: usize = 0;
    while i < scripts.len()
        invariant
            i <= scripts.len(),
            nodes(children@) == service_children(scripts@, i as nat),
        decreases scripts.len() - i,
    {
        let script = &scripts[i];
        let mut path = clone_texts(&script.directories);
        match &script.name {
            Some(name) => {
                let last = name.clone();
                proof {
                    lemma_texts_push(path@, last);
                }
                path.push(last);
            },
            None => {},
        }
        assert(texts(path@).skip(0) =~= script_path(*script));
        insert_script(&mut children, &path, 0, &script.class_name, &script.file);
        i += 1;
    }
    assert(nodes(children@).len() == children@.len());
    if children.len() == 0 {
        return None;
    }
    root.children = children;
    assert(root@ =~= (NodeModel {
        children: service_children(scripts@, scripts@.len()),
        ..bare_node(service@, service@)
    }));
    Some(root)
}

/// The names below a service are in order and each once.
pub proof fn law_service_children_in_order(scripts: Seq<ScriptFile>, n: nat)
    requires
        n <= scripts.len(),
    ensures
        in_order(service_children(scripts, n)),
    decreases n,
{
    if n > 0 {
        law_service_children_in_order(scripts, (n - 1) as nat);
        law_scripts_keep_the_order(
            service_children(scripts, (n - 1) as nat),
            script_path(scripts[n - 1]),
            scripts[n - 1].class_name@,
            scripts[n - 1].file@,
        );
    }
}

/// An instance with its place among the services.
pub struct PlacedNode {
    pub place: usize,
    pub node: SourcemapNode,
}

#[verifier::ext_equal]
pub struct PlacedModel {
    pub place: usize,
    pub node: NodeModel,
}

impl View for PlacedNode {
    type V = PlacedModel;

    open spec fn view(&self) -> PlacedModel {
        PlacedModel { place: self.place, node: self.node@ }
    }
}

impl Ranked for PlacedNode {
    open spec fn ranks_before(a: PlacedModel, b: PlacedModel) -> bool {
        if a.place == b.place {
            text_less(a.node.name, b.node.name)
        } else {
            a.place < b.place
        }
    }

    fn is_before(&self, other: &Self) -> (r: bool) {
        if self.place == other.place {
            less(&self.node.name, &other.node.name)
        } else {
            self.place < other.place
        }
    }

    proof fn lemma_ranks(a: PlacedModel, b: PlacedModel, c: PlacedModel) {
        lemma_text_less_total(a.node.name, b.node.name);
        lemma_text_less_total(b.node.name, c.node.name);
        lemma_text_less_total(a.node.name, c.node.name);
        if text_less(a.node.name, b.node.name) && text_less(b.node.name, c.node.name) {
            lemma_text_less_transitive(a.node.name, b.node.name, c.node.name);
        }
    }
}

/// The place of a name in a list, or the end of all places.
pub open spec fn place_in(order: Seq<Seq<char>>, name: Seq<char>, i: int) -> usize
    decreases order.len() - i,
{
    if i < 0 || i >= order.len() {
        usize::MAX
    } else if order[i] == name {
        i as usize
    } else {
        place_in(order, name, i + 1)
    }
}

pub open spec fn placed(order: Seq<Seq<char>>, v: Seq<NodeModel>) -> Seq<PlacedModel> {
    Seq::new(v.len(), |i: int| PlacedModel { place: place_in(order, v[i].name, 0), node: v[i] })
}

pub open spec fn placed_nodes(v: Seq<PlacedModel>) -> Seq<NodeModel> {
    Seq::new(v.len(), |i: int| v[i].node)
}

/// Services in the order of a list of names, and others after them in the order of their names.
pub open spec fn in_service_order(order: Seq<Seq<char>>, v: Seq<NodeModel>) -> Seq<NodeModel> {
    placed_nodes(sorted::<PlacedNode>(placed(order, v), v.len()))
}

fn find_place(order: &Vec<String>, name: &str) -> (r: usize)
    ensures
        r == place_in(texts(order@), name@, 0),
{
    let ghost all = texts(order@);
    let mut i: usize = 0;
    while i < order.len()
        invariant
            i <= order.len(),
            all == texts(order@),
            place_in(all, name@, 0) == place_in(all, name@, i as int),
        decreases order.len() - i,
    {
        assert(all[i as int] == order@[i as int]@);
        if same(&order[i], name) {
            return i;
        }
        i += 1;
    }
    usize::MAX
}

/// Puts services in the order of a list of names, and others after them in the order of their names.
pub fn sort_services(children: Vec<SourcemapNode>, order: &Vec<String>) -> (r: Vec<SourcemapNode>)
    ensures
        nodes(r@) == in_service_order(texts(order@), nodes(children@)),
{
    let ghost all = nodes(children@);
    let ghost names = texts(order@);
    let ghost wanted = placed(names, all);
    let mut rest = children;
    let mut list: Vec<PlacedNode> = Vec::new();
    assert(views(list@) =~= wanted.take(0));
    assert(all.skip(0) =~= all);
    while rest.len() > 0
        invariant
            names == texts(order@),
            wanted == placed(names, all),
            list@.len() <= all.len(),
            list@.len() + rest@.len() == all.len(),
            nodes(rest@) == all.skip(list@.len() as int),
            views(list@) == wanted.take(list@.len() as int),
        decreases rest.len(),
    {
        let ghost before = list@;
        let ghost start = rest@;
        proof {
            lemma_nodes_remove(rest@, 0);
            assert(nodes(rest@)[0] == rest@[0]@);
            assert(all.skip(before.len() as int)[0] == all[before.len() as int]);
        }
        let node = rest.remove(0);
        let place = find_place(order, &node.name);
        let x = PlacedNode { place, node };
        list.push(x);
        proof {
            assert(views(list@) =~= views(before).push(x@));
            assert(wanted[before.len() as int] == x@);
            assert(wanted.take(list@.len() as int) =~= wanted.take(before.len() as int).push(x@));
            assert(all.skip(before.len() as int).remove(0) =~= all.skip(list@.len() as int));
        }
    }
    assert(wanted.take(list@.len() as int) =~= wanted);
    let mut ranked = sort_ranked(list);
    let ghost sorted_list = views(ranked@);
    assert(sorted_list.len() == ranked@.len());
    let mut out: Vec<SourcemapNode> = Vec::new();
    let ghost total = ranked@.len();
    let ghost result = placed_nodes(sorted_list);
    assert(nodes(out@) =~= result.take(0));
    while ranked.len() > 0
        invariant
            out@.len() + ranked@.len() == total,
            total == sorted_list.len(),
            result == placed_nodes(sorted_list),
            forall|j: int| 0 <= j < ranked@.len() ==> (#[trigger] ranked@[j])@ == sorted_list[out@.len() + j],
            nodes(out@) == result.take(out@.len() as int),
        decreases ranked.len(),
    {
        let ghost before = out@;
        let ghost start = ranked@;
        assert(ranked@[0]@ == sorted_list[before.len() as int]);
        let first = ranked.remove(0);
        proof {
            lemma_nodes_push(out@, first.node);
            assert(result[before.len() as int] == first.node@);
        }
        out.push(first.node);
        proof {
            assert(nodes(out@) =~= result.take(out@.len() as int));
            assert forall|j: int| 0 <= j < ranked@.len() implies (#[trigger] ranked@[j])@ == sorted_list[out@.len() + j] by {
                assert(ranked@[j] == start[j + 1]);
            }
        }
    }
    assert(result.take(out@.len() as int) =~= result);
    out
}

/// The children, with a name's in place of the first of that name, or at the end.
pub open spec fn with_service(children: Seq<NodeModel>, name: Seq<char>, node: NodeModel, i: int) -> Seq<NodeModel>
    decreases children.len() - i,
{
    if i < 0 || i >= children.len() {
        children.push(node)
    } else if children[i].name == name {
        children.update(i, node)
    } else {
        with_service(children, name, node, i + 1)
    }
}

/// Puts a service's tree in place of the one of its name, or at the end.
pub fn put_service(children: &mut Vec<SourcemapNode>, name: &str, node: SourcemapNode)
    ensures
        nodes(final(children)@) == with_service(nodes(old(children)@), name@, node@, 0),
{
    let ghost all = nodes(children@);
    let ghost start = children@;
    let mut i: usize = 0;
    while i < children.len()
        invariant
            i <= children.len(),
            children@ == start,
            start == old(children)@,
            all == nodes(start),
            with_service(all, name@, node@, 0) == with_service(all, name@, node@, i as int),
        decreases children.len() - i,
    {
        assert(all[i as int] == children@[i as int]@);
        if same(&children[i].name, name) {
            children.set(i, node);
            assert(nodes(children@) =~= all.update(i as int, node@));
            return;
        }
        i += 1;
    }
    proof {
        lemma_nodes_push(children@, node);
    }
    children.push(node);
}

/// The tree after the files of a script that a rule made were put at its target.
pub open spec fn with_transform(
    children: Seq<NodeModel>,
    path: Seq<Seq<char>>,
    service: bool,
    class_name: Seq<char>,
    file: Seq<char>,
) -> Seq<NodeModel>
    decreases path.len(),
{
    if path.len() == 0 {
        children
    } else {
        let name = path[0];
        let at = first_named(children, name, 0);
        let found = at < children.len();
        let class = if service {
            name
        } else if path.len() == 1 {
            class_name
        } else {
            "Folder"@
        };
        let node = classed(
            if found {
                children[at]
            } else {
                bare_node(name, class)
            },
            class,
        );
        let done = if path.len() == 1 {
            NodeModel { file_paths: seq![file], ..node }
        } else {
            NodeModel { children: with_transform(node.children, path.skip(1), false, class_name, file), ..node }
        };
        if found {
            children.update(at, done)
        } else {
            children.push(done)
        }
    }
}

/// The first child at or after the `i`th with a name, or the end.
pub open spec fn first_named(children: Seq<NodeModel>, name: Seq<char>, i: int) -> int
    decreases children.len() - i,
{
    if i < 0 || i >= children.len() || children[i].name == name {
        i
    } else {
        first_named(children, name, i + 1)
    }
}

fn find_named(children: &Vec<SourcemapNode>, name: &str) -> (r: usize)
    ensures
        r == first_named(nodes(children@), name@, 0),
        r <= children@.len(),
{
    let ghost all = nodes(children@);
    let mut i: usize = 0;
    while i < children.len() && !same(&children[i].name, name)
        invariant
            i <= children.len(),
            all == nodes(children@),
            all.len() == children@.len(),
            first_named(all, name@, 0) == first_named(all, name@, i as int),
        decreases children.len() - i,
    {
        assert(all[i as int] == children@[i as int]@);
        i += 1;
    }
    proof {
        if i < children@.len() {
            assert(all[i as int] == children@[i as int]@);
        }
    }
    i
}

/// Puts the file of a script that a rule made at its target.
pub fn inject_transform(
    children: &mut Vec<SourcemapNode>,
    path: &Vec<String>,
    from: usize,
    service: bool,
    class_name: &str,
    file: &str,
)
    requires
        from <= path@.len(),
    ensures
        nodes(final(children)@) == with_transform(
            nodes(old(children)@),
            texts(path@).skip(from as int),
            service,
            class_name@,
            file@,
        ),
    decreases path@.len() - from,
{
    let ghost all = nodes(children@);
    let ghost names = texts(path@).skip(from as int);
    assert(names.len() == path@.len() - from);
    if from == path.len() {
        return;
    }
    assert(names[0] == path@[from as int]@);
    let at = find_named(children, &path[from]);
    let last = from + 1 == path.len();
    let class = if service {
        path[from].as_str()
    } else if last {
        class_name
    } else {
        "Folder"
    };
    assert(all.len() == children@.len());
    let found = at < children.len();
    proof {
        if at < children@.len() {
            assert(all[at as int] == children@[at as int]@);
        }
    }
    let mut node = if found {
        proof {
            lemma_nodes_remove(children@, at as int);
        }
        children.remove(at)
    } else {
        new_node(&path[from], class)
    };
    let ghost rest = children@;
    set_class(&mut node, class);
    let ghost ready = node@;
    if last {
        let mut files: Vec<String> = Vec::new();
        files.push(file.to_owned());
        node.file_paths = files;
        assert(texts(node.file_paths@) =~= seq![file@]);
        assert(node@ =~= (NodeModel { file_paths: seq![file@], ..ready }));
    } else {
        let mut inner: Vec<SourcemapNode> = Vec::new();
        std::mem::swap(&mut node.children, &mut inner);
        assert(nodes(inner@) == ready.children);
        inject_transform(&mut inner, path, from + 1, false, class_name, file);
        node.children = inner;
        assert(names.skip(1) =~= texts(path@).skip(from + 1));
        assert(node@ =~= (NodeModel {
            children: with_transform(ready.children, names.skip(1), false, class_name@, file@),
            ..ready
        }));
    }
    let ghost done = node@;
    proof {
        lemma_nodes_insert(rest, at as int, node);
    }
    children.insert(at, node);
    proof {
        if found {
            assert(all.remove(at as int).insert(at as int, done) =~= all.update(at as int, done));
        } else {
            assert(at == all.len());
            assert(all.insert(at as int, done) =~= all.push(done));
        }
    }
}

/// The tree after the first `n` scripts that rules made.
pub open spec fn with_transforms(
    children: Seq<NodeModel>,
    scripts: Seq<ScriptTransformModel>,
    project_root: RootModel,
    n: nat,
) -> Seq<NodeModel>
    decreases n,
{
    if n == 0 {
        children
    } else {
        let x = scripts[n - 1];
        with_transform(
            with_transforms(children, scripts, project_root, (n - 1) as nat),
            x.target,
            true,
            x.class_name,
            mapped_file(project_root, x.source),
        )
    }
}

/// Puts the files of the scripts that rules made at their targets.
pub fn inject_projected_transforms(children: &mut Vec<SourcemapNode>, project_root: &MapRoot, scripts: &Vec<TransformedScript>)
    ensures
        nodes(final(children)@) == with_transforms(
            nodes(old(children)@),
            script_views(scripts@),
            project_root@,
            scripts@.len(),
        ),
{
    let ghost start = nodes(children@);
    let ghost all = script_views(scripts@);
    let mut i: usize = 0;
    while i < scripts.len()
        invariant
            i <= scripts.len(),
            all == script_views(scripts@),
            nodes(children@) == with_transforms(start, all, project_root@, i as nat),
        decreases scripts.len() - i,
    {
        assert(all[i as int] == scripts@[i as int]@);
        let file = path_to_sourcemap_relative(project_root, &scripts[i].source);
        assert(texts(scripts@[i as int].target@).skip(0) =~= texts(scripts@[i as int].target@));
        inject_transform(children, &scripts[i].target, 0, true, &scripts[i].class_name, &file);
        i += 1;
    }
}

/// A file under its new name, where it has one.
pub open spec fn renamed(names: Map<Seq<char>, Seq<char>>, file: Seq<char>) -> Seq<char> {
    match value_of(names, file) {
        Some(name) => name,
        None => file,
    }
}

/// The file of what a rule made at a target.
pub open spec fn transform_file(transforms: Seq<TransformModel>, project_root: RootModel, target: Seq<Seq<char>>) -> Option<Seq<char>> {
    if exists|i: int| is_transform_at(transforms, target, i) {
        let i = choose|i: int| is_transform_at(transforms, target, i);
        Some(mapped_file(project_root, transforms[i].source))
    } else {
        None
    }
}

/// The files of an instance of a projection as a project names them: those that a rule made it of, or
/// the files behind the staged ones.
pub open spec fn project_files(
    files: Seq<Seq<char>>,
    transforms: Seq<TransformModel>,
    project_root: RootModel,
    names: Map<Seq<char>, Seq<char>>,
    target: Seq<Seq<char>>,
) -> Seq<Seq<char>> {
    match transform_file(transforms, project_root, target) {
        Some(file) => if files.len() == 0 {
            files
        } else {
            seq![file]
        },
        None => Seq::new(files.len(), |i: int| renamed(names, files[i])),
    }
}

/// An instance of a projection at a target, with the files that a project has for it and what is below.
pub open spec fn rewritten(
    node: NodeModel,
    transforms: Seq<TransformModel>,
    project_root: RootModel,
    names: Map<Seq<char>, Seq<char>>,
    target: Seq<Seq<char>>,
) -> NodeModel
    decreases node, 0nat,
{
    NodeModel {
        file_paths: project_files(node.file_paths, transforms, project_root, names, target),
        children: rewritten_list(node.children, transforms, project_root, names, target, node.children.len()),
        ..node
    }
}

pub open spec fn rewritten_list(
    list: Seq<NodeModel>,
    transforms: Seq<TransformModel>,
    project_root: RootModel,
    names: Map<Seq<char>, Seq<char>>,
    target: Seq<Seq<char>>,
    n: nat,
) -> Seq<NodeModel>
    decreases list, n,
{
    if n == 0 || n > list.len() {
        Seq::empty()
    } else {
        rewritten_list(list, transforms, project_root, names, target, (n - 1) as nat).push(
            rewritten(list[n - 1], transforms, project_root, names, target.push(list[n - 1].name)),
        )
    }
}

fn rename_files(files: &Vec<String>, names: &Table<String, String>) -> (r: Vec<String>)
    ensures
        texts(r@) == Seq::new(texts(files@).len(), |i: int| renamed(names@, texts(files@)[i])),
{
    let ghost all = texts(files@);
    let ghost wanted = Seq::new(all.len(), |i: int| renamed(names@, all[i]));
    let mut out: Vec<String> = Vec::new();
    let mut i: usize = 0;
    while i < files.len()
        invariant
            i <= files.len(),
            all == texts(files@),
            wanted == Seq::new(all.len(), |i: int| renamed(names@, all[i])),
            texts(out@) =~= wanted.take(i as int),
        decreases files.len() - i,
    {
        assert(all[i as int] == files@[i as int]@);
        let name = match names.get(&files[i]) {
            Some(name) => name.clone(),
            None => files[i].clone(),
        };
        proof {
            lemma_texts_push(out@, name);
            assert(wanted[i as int] == name@);
        }
        out.push(name);
        i += 1;
    }
    assert(wanted.take(i as int) =~= wanted);
    out
}

/// Gives an instance of a projection, and what is below it, the files that a project has for them. The
/// new names of staged files are given.
pub fn rewrite_projected_paths(
    node: &SourcemapNode,
    stage: &ProjectionStage,
    project_root: &MapRoot,
    names: &Table<String, String>,
    target: &Vec<String>,
) -> (r: SourcemapNode)
    ensures
        r@ == rewritten(node@, views(stage.transforms@), project_root@, names@, texts(target@)),
    decreases node,
{
    let ghost transforms = views(stage.transforms@);
    let files = match stage.transformed_source_for_target(target) {
        Some(source) => {
            proof {
                let i = choose|i: int| #[trigger]
                    is_transform_at(transforms, texts(target@), i) && source@ == transforms[i].source;
                let other = choose|i: int| is_transform_at(transforms, texts(target@), i);
                if i < other {
                    assert(transforms[i].target != texts(target@));
                } else if other < i {
                    assert(transforms[other].target != texts(target@));
                }
            }
            if node.file_paths.len() == 0 {
                clone_texts(&node.file_paths)
            } else {
                let mut files: Vec<String> = Vec::new();
                files.push(path_to_sourcemap_relative(project_root, source));
                assert(texts(files@) =~= seq![mapped_file(project_root@, source@)]);
                assert(texts(node.file_paths@).len() > 0);
                files
            }
        },
        None => {
            assert forall|i: int| !is_transform_at(transforms, texts(target@), i) by {
                if is_transform_at(transforms, texts(target@), i) {
                    assert(transforms[i].target != texts(target@));
                }
            }
            rename_files(&node.file_paths, names)
        },
    };
    assert(texts(files@) == project_files(node@.file_paths, transforms, project_root@, names@, texts(target@)));
    let children = rewrite_list(&node.children, stage, project_root, names, target);
    let r = SourcemapNode { name: node.name.clone(), class_name: node.class_name.clone(), file_paths: files, children };
    assert(r@ =~= rewritten(node@, transforms, project_root@, names@, texts(target@)));
    r
}

fn rewrite_list(
    list: &Vec<SourcemapNode>,
    stage: &ProjectionStage,
    project_root: &MapRoot,
    names: &Table<String, String>,
    target: &Vec<String>,
) -> (r: Vec<SourcemapNode>)
    ensures
        nodes(r@) == rewritten_list(
            nodes(list@),
            views(stage.transforms@),
            project_root@,
            names@,
            texts(target@),
            list@.len(),
        ),
    decreases list,
{
    let ghost all = nodes(list@);
    let mut out: Vec<SourcemapNode> = Vec::new();
    assert(nodes(out@) =~= Seq::empty());
    let mut i: usize = 0;
    while i < list.len()
        invariant
            i <= list.len(),
            all == nodes(list@),
            all.len() == list@.len(),
            nodes(out@) == rewritten_list(
                all,
                views(stage.transforms@),
                project_root@,
                names@,
                texts(target@),
                i as nat,
            ),
        decreases list.len() - i,
    {
        assert(all[i as int] == list@[i as int]@);
        let below = crate::project::below_target(target, &list[i].name);
        let node = rewrite_projected_paths(&list[i], stage, project_root, names, &below);
        proof {
            lemma_nodes_push(out@, node);
        }
        out.push(node);
        i += 1;
    }
    out
}

/// Something of an instance, its name or a file, was hit.
pub open spec fn is_hit(hits: Map<Seq<char>, bool>, text: Seq<char>) -> bool {
    value_of(hits, text) == Some(true)
}

/// An instance with those below it that hits keep, and whether hits keep it: for its own sake, or for
/// what is below it.
pub open spec fn filtered(node: NodeModel, hits: Map<Seq<char>, bool>) -> NodeModel
    decreases node, 0nat,
{
    NodeModel { children: filtered_list(node.children, hits, node.children.len()), ..node }
}

pub open spec fn is_kept(node: NodeModel, hits: Map<Seq<char>, bool>) -> bool {
    ||| filtered(node, hits).children.len() > 0
    ||| exists|i: int| 0 <= i < node.file_paths.len() && is_hit(hits, #[trigger] node.file_paths[i])
    ||| is_hit(hits, node.name)
}

pub open spec fn filtered_list(list: Seq<NodeModel>, hits: Map<Seq<char>, bool>, n: nat) -> Seq<NodeModel>
    decreases list, n,
{
    if n == 0 || n > list.len() {
        Seq::empty()
    } else {
        let before = filtered_list(list, hits, (n - 1) as nat);
        let node = list[n - 1];
        let kept = filtered(node, hits);
        if kept.children.len() > 0 || (exists|i: int|
            0 <= i < node.file_paths.len() && is_hit(hits, #[trigger] node.file_paths[i])) || is_hit(hits, node.name) {
            before.push(kept)
        } else {
            before
        }
    }
}

fn hit(hits: &Table<String, bool>, text: &String) -> (r: bool)
    ensures
        r == is_hit(hits@, text@),
{
    match hits.get(text) {
        Some(b) => *b,
        None => false,
    }
}

fn any_hit(hits: &Table<String, bool>, files: &Vec<String>) -> (r: bool)
    ensures
        r == exists|i: int| 0 <= i < texts(files@).len() && is_hit(hits@, #[trigger] texts(files@)[i]),
{
    let ghost all = texts(files@);
    let mut i: usize = 0;
    while i < files.len()
        invariant
            i <= files.len(),
            all == texts(files@),
            forall|j: int| 0 <= j < i ==> !is_hit(hits@, #[trigger] all[j]),
        decreases files.len() - i,
    {
        assert(all[i as int] == files@[i as int]@);
        if hit(hits, &files[i]) {
            return true;
        }
        i += 1;
    }
    false
}

/// Keeps what hits keep of a tree, and says whether they keep its root.
pub fn filter_by_hits(node: &SourcemapNode, hits: &Table<String, bool>) -> (r: (SourcemapNode, bool))
    ensures
        r.0@ == filtered(node@, hits@),
        r.1 == is_kept(node@, hits@),
    decreases node,
{
    let children = filter_list(&node.children, hits);
    assert(nodes(children@).len() == children@.len());
    let kept = children.len() > 0 || any_hit(hits, &node.file_paths) || hit(hits, &node.name);
    let r = SourcemapNode {
        name: node.name.clone(),
        class_name: node.class_name.clone(),
        file_paths: clone_texts(&node.file_paths),
        children,
    };
    assert(r@ =~= filtered(node@, hits@));
    (r, kept)
}

fn filter_list(list: &Vec<SourcemapNode>, hits: &Table<String, bool>) -> (r: Vec<SourcemapNode>)
    ensures
        nodes(r@) == filtered_list(nodes(list@), hits@, list@.len()),
    decreases list,
{
    let ghost all = nodes(list@);
    let mut out: Vec<SourcemapNode> = Vec::new();
    assert(nodes(out@) =~= Seq::empty());
    let mut i: usize = 0;
    while i < list.len()
        invariant
            i <= list.len(),
            all == nodes(list@),
            all.len() == list@.len(),
            nodes(out@) == filtered_list(all, hits@, i as nat),
        decreases list.len() - i,
    {
        assert(all[i as int] == list@[i as int]@);
        let (node, kept) = filter_by_hits(&list[i], hits);
        if kept {
            proof {
                lemma_nodes_push(out@, node);
            }
            out.push(node);
        }
        i += 1;
    }
    out
}

/// What a filter answers for a text: whether some pattern matches it, wherever the patterns are read
/// the same on every machine.
pub open spec fn may_answer(patterns: Seq<Seq<char>>, text: Seq<char>, answer: bool) -> bool {
    (forall|i: int| 0 <= i < patterns.len() ==> portable_glob(#[trigger] patterns[i], text)) ==> answer == exists|i: int|
        0 <= i < patterns.len() && glob_match(#[trigger] patterns[i], text) == Some(true)
}

/// A text of an instance or of one below it.
pub open spec fn has_text(node: NodeModel, text: Seq<char>) -> bool
    decreases node, 0nat,
{
    node.name == text || node.file_paths.contains(text) || list_has_text(node.children, text, node.children.len())
}

pub open spec fn list_has_text(list: Seq<NodeModel>, text: Seq<char>, n: nat) -> bool
    decreases list, n,
{
    if n == 0 || n > list.len() {
        false
    } else {
        has_text(list[n - 1], text) || list_has_text(list, text, (n - 1) as nat)
    }
}

/// Every text of a tree has an answer that the filter may give.
pub open spec fn are_answers(patterns: Seq<Seq<char>>, node: NodeModel, hits: Map<Seq<char>, bool>) -> bool {
    &&& forall|text: Seq<char>| #[trigger] has_text(node, text) ==> hits.dom().contains(text)
    &&& forall|text: Seq<char>| #[trigger] hits.dom().contains(text) ==> may_answer(patterns, text, hits[text])
}

fn ask(patterns: &Vec<String>, text: &String) -> (r: bool)
    ensures
        may_answer(texts(patterns@), text@, r),
{
    let ghost all = texts(patterns@);
    let mut i: usize = 0;
    while i < patterns.len()
        invariant
            i <= patterns.len(),
            all == texts(patterns@),
            forall|j: int| 0 <= j < i && portable_glob(#[trigger] all[j], text@) ==> glob_match(all[j], text@) != Some(true),
        decreases patterns.len() - i,
    {
        assert(all[i as int] == patterns@[i as int]@);
        match match_glob(&patterns[i], text) {
            Some(b) => {
                if b {
                    return true;
                }
            },
            None => {},
        }
        i += 1;
    }
    false
}

fn note_answers(node: &SourcemapNode, patterns: &Vec<String>, hits: &mut Table<String, bool>)
    requires
        forall|text: Seq<char>| #[trigger]
            old(hits)@.dom().contains(text) ==> may_answer(texts(patterns@), text, old(hits)@[text]),
    ensures
        forall|text: Seq<char>| #[trigger]
            final(hits)@.dom().contains(text) ==> may_answer(texts(patterns@), text, final(hits)@[text]),
        forall|text: Seq<char>| #[trigger] old(hits)@.dom().contains(text) ==> final(hits)@.dom().contains(text),
        forall|text: Seq<char>| #[trigger] has_text(node@, text) ==> final(hits)@.dom().contains(text),
    decreases node,
{
    let answer = ask(patterns, &node.name);
    hits.put(node.name.clone(), answer);
    let ghost files = texts(node.file_paths@);
    let mut i: usize = 0;
    while i < node.file_paths.len()
        invariant
            i <= node.file_paths.len(),
            files == texts(node.file_paths@),
            hits@.dom().contains(node.name@),
            forall|text: Seq<char>| #[trigger]
                hits@.dom().contains(text) ==> may_answer(texts(patterns@), text, hits@[text]),
            forall|text: Seq<char>| #[trigger] old(hits)@.dom().contains(text) ==> hits@.dom().contains(text),
            forall|j: int| 0 <= j < i ==> hits@.dom().contains(#[trigger] files[j]),
        decreases node.file_paths.len() - i,
    {
        assert(files[i as int] == node.file_paths@[i as int]@);
        let answer = ask(patterns, &node.file_paths[i]);
        hits.put(node.file_paths[i].clone(), answer);
        i += 1;
    }
    let ghost middle = hits@;
    note_list_answers(&node.children, patterns, hits);
    assert forall|text: Seq<char>| #[trigger] has_text(node@, text) implies hits@.dom().contains(text) by {
        if node@.file_paths.contains(text) {
            let j = choose|j: int| 0 <= j < files.len() && files[j] == text;
            assert(middle.dom().contains(files[j]));
        } else if node@.name == text {
            assert(middle.dom().contains(text));
        } else {
            assert(list_has_text(nodes(node.children@), text, node.children@.len()));
        }
    }
}

fn note_list_answers(list: &Vec<SourcemapNode>, patterns: &Vec<String>, hits: &mut Table<String, bool>)
    requires
        forall|text: Seq<char>| #[trigger]
            old(hits)@.dom().contains(text) ==> may_answer(texts(patterns@), text, old(hits)@[text]),
    ensures
        forall|text: Seq<char>| #[trigger]
            final(hits)@.dom().contains(text) ==> may_answer(texts(patterns@), text, final(hits)@[text]),
        forall|text: Seq<char>| #[trigger] old(hits)@.dom().contains(text) ==> final(hits)@.dom().contains(text),
        forall|text: Seq<char>| #[trigger]
            list_has_text(nodes(list@), text, list@.len()) ==> final(hits)@.dom().contains(text),
    decreases list,
{
    let ghost all = nodes(list@);
    let mut i: usize = 0;
    while i < list.len()
        invariant
            i <= list.len(),
            all == nodes(list@),
            all.len() == list@.len(),
            forall|text: Seq<char>| #[trigger]
                hits@.dom().contains(text) ==> may_answer(texts(patterns@), text, hits@[text]),
            forall|text: Seq<char>| #[trigger] old(hits)@.dom().contains(text) ==> hits@.dom().contains(text),
            forall|text: Seq<char>| #[trigger] list_has_text(all, text, i as nat) ==> hits@.dom().contains(text),
        decreases list.len() - i,
    {
        assert(all[i as int] == list@[i as int]@);
        let ghost before = hits@;
        note_answers(&list[i], patterns, hits);
        i += 1;
        assert forall|text: Seq<char>| #[trigger] list_has_text(all, text, i as nat) implies hits@.dom().contains(text) by {
            if list_has_text(all, text, (i - 1) as nat) {
                assert(before.dom().contains(text));
            } else {
                assert(has_text(all[i - 1], text));
            }
        }
    }
}

/// Keeps what some patterns match of a tree, by name or file, and says whether the root is kept; or
/// which pattern can not be used.
pub fn filter_sourcemap_nodes(node: &SourcemapNode, patterns: &Vec<String>) -> (r: Result<(SourcemapNode, bool), usize>)
    ensures
        match r {
            Ok((kept, whole)) => exists|hits: Map<Seq<char>, bool>| #[trigger]
                are_answers(texts(patterns@), node@, hits) && kept@ == filtered(node@, hits) && whole == is_kept(node@, hits),
            Err(i) => i < patterns@.len() && (portable_glob(patterns@[i as int]@, Seq::empty()) ==> glob_match(
                patterns@[i as int]@,
                Seq::empty(),
            ) is None),
        },
{
    let mut i: usize = 0;
    let nothing = "";
    proof {
        reveal_strlit("");
        assert(nothing@ =~= Seq::<char>::empty());
    }
    while i < patterns.len()
        invariant
            i <= patterns.len(),
            nothing@ == Seq::<char>::empty(),
        decreases patterns.len() - i,
    {
        if match_glob(&patterns[i], nothing).is_none() {
            return Err(i);
        }
        i += 1;
    }
    let mut hits: Table<String, bool> = Table::new();
    note_answers(node, patterns, &mut hits);
    let (kept, whole) = filter_by_hits(node, &hits);
    assert(are_answers(texts(patterns@), node@, hits@));
    Ok((kept, whole))
}

/// A file as an absolute path.
pub open spec fn absolute_file(project_root: PathParts, file: Seq<char>) -> Seq<char> {
    if path_named(file).rooted {
        file
    } else {
        with_char(slash_text(joined_path(project_root, path_named(file))), '\\', '/')
    }
}

/// A tree whose files are absolute paths.
pub open spec fn made_absolute(node: NodeModel, project_root: PathParts) -> NodeModel
    decreases node, 0nat,
{
    NodeModel {
        file_paths: Seq::new(node.file_paths.len(), |i: int| absolute_file(project_root, node.file_paths[i])),
        children: list_made_absolute(node.children, project_root, node.children.len()),
        ..node
    }
}

pub open spec fn list_made_absolute(list: Seq<NodeModel>, project_root: PathParts, n: nat) -> Seq<NodeModel>
    decreases list, n,
{
    if n == 0 || n > list.len() {
        Seq::empty()
    } else {
        list_made_absolute(list, project_root, (n - 1) as nat).push(made_absolute(list[n - 1], project_root))
    }
}

fn absolute_files(files: &Vec<String>, project_root: &FilePath) -> (r: Vec<String>)
    ensures
        texts(r@) == Seq::new(texts(files@).len(), |i: int| absolute_file(project_root@, texts(files@)[i])),
{
    let ghost all = texts(files@);
    let ghost wanted = Seq::new(all.len(), |i: int| absolute_file(project_root@, all[i]));
    let mut out: Vec<String> = Vec::new();
    let mut i: usize = 0;
    while i < files.len()
        invariant
            i <= files.len(),
            all == texts(files@),
            wanted == Seq::new(all.len(), |i: int| absolute_file(project_root@, all[i])),
            texts(out@) =~= wanted.take(i as int),
        decreases files.len() - i,
    {
        assert(all[i as int] == files@[i as int]@);
        let path = path_from_text(&files[i]);
        let name = if path.rooted {
            files[i].clone()
        } else {
            replace_char(&project_root.join(&path).to_slash(), '\\', '/')
        };
        proof {
            lemma_texts_push(out@, name);
            assert(wanted[i as int] == name@);
        }
        out.push(name);
        i += 1;
    }
    assert(wanted.take(i as int) =~= wanted);
    out
}

/// Makes the files of a tree absolute paths.
pub fn make_sourcemap_paths_absolute(node: &SourcemapNode, project_root: &FilePath) -> (r: SourcemapNode)
    ensures
        r@ == made_absolute(node@, project_root@),
    decreases node,
{
    let file_paths = absolute_files(&node.file_paths, project_root);
    let children = absolute_list(&node.children, project_root);
    let r = SourcemapNode { name: node.name.clone(), class_name: node.class_name.clone(), file_paths, children };
    assert(r@ =~= made_absolute(node@, project_root@));
    r
}

fn absolute_list(list: &Vec<SourcemapNode>, project_root: &FilePath) -> (r: Vec<SourcemapNode>)
    ensures
        nodes(r@) == list_made_absolute(nodes(list@), project_root@, list@.len()),
    decreases list,
{
    let ghost all = nodes(list@);
    let mut out: Vec<SourcemapNode> = Vec::new();
    assert(nodes(out@) =~= Seq::empty());
    let mut i: usize = 0;
    while i < list.len()
        invariant
            i <= list.len(),
            all == nodes(list@),
            all.len() == list@.len(),
            nodes(out@) == list_made_absolute(all, project_root@, i as nat),
        decreases list.len() - i,
    {
        assert(all[i as int] == list@[i as int]@);
        let node = make_sourcemap_paths_absolute(&list[i], project_root);
        proof {
            lemma_nodes_push(out@, node);
        }
        out.push(node);
        i += 1;
    }
    out
}

/// A change of a path matters to the source map: it is no output and nothing of the tool's own, and is
/// watched for itself or as a part of a directory.
pub open spec fn change_matters(
    path: PathParts,
    output: Option<PathParts>,
    files: Seq<PathParts>,
    directories: Seq<PathParts>,
) -> bool {
    &&& output != Some(path)
    &&& !path.parts.contains(".renium"@)
    &&& files.contains(path) || exists|i: int| 0 <= i < directories.len() && path_starts_with(path, #[trigger] directories[i])
}

/// Whether a change of some path matters to the source map.
pub fn changes_matter(
    paths: &Vec<FilePath>,
    output: &Option<FilePath>,
    files: &Vec<FilePath>,
    directories: &Vec<FilePath>,
) -> (r: bool)
    ensures
        r == exists|i: int|
            0 <= i < paths@.len() && change_matters(
                #[trigger] path_views(paths@)[i],
                opt_path(*output),
                path_views(files@),
                path_views(directories@),
            ),
{
    let ghost all = path_views(paths@);
    let ghost shown = opt_path(*output);
    let mut i: usize = 0;
    while i < paths.len()
        invariant
            i <= paths.len(),
            all == path_views(paths@),
            shown == opt_path(*output),
            forall|j: int|
                0 <= j < i ==> !change_matters(#[trigger] all[j], shown, path_views(files@), path_views(directories@)),
        decreases paths.len() - i,
    {
        assert(all[i as int] == paths@[i as int]@);
        let path = &paths[i];
        let is_output = match output {
            Some(output) => output.is_same(path),
            None => false,
        };
        if !is_output && !holds_text(&path.parts, ".renium") && is_watched(path, files, directories) {
            assert(change_matters(all[i as int], shown, path_views(files@), path_views(directories@)));
            return true;
        }
        i += 1;
    }
    false
}

fn is_watched(path: &FilePath, files: &Vec<FilePath>, directories: &Vec<FilePath>) -> (r: bool)
    ensures
        r == (path_views(files@).contains(path@) || exists|i: int|
            0 <= i < path_views(directories@).len() && path_starts_with(path@, #[trigger] path_views(directories@)[i])),
{
    let ghost listed = path_views(files@);
    let ghost dirs = path_views(directories@);
    let mut i: usize = 0;
    while i < files.len()
        invariant
            i <= files.len(),
            listed == path_views(files@),
            forall|j: int| 0 <= j < i ==> #[trigger] listed[j] != path@,
        decreases files.len() - i,
    {
        assert(listed[i as int] == files@[i as int]@);
        if files[i].is_same(path) {
            assert(listed.contains(path@));
            return true;
        }
        i += 1;
    }
    let mut k: usize = 0;
    while k < directories.len()
        invariant
            k <= directories.len(),
            dirs == path_views(directories@),
            forall|j: int| 0 <= j < k ==> !path_starts_with(path@, #[trigger] dirs[j]),
        decreases directories.len() - k,
    {
        assert(dirs[k as int] == directories@[k as int]@);
        if path.starts_with(&directories[k]) {
            return true;
        }
        k += 1;
    }
    false
}

} // verus!
