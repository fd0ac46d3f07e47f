//! File paths as lists of components, and which of them every platform can hold.
use vstd::prelude::*;

use crate::text::{
    ascii_lower, chars_of, clone_texts, ends_with, join_texts, joined, joined_by, lemma_texts_push, pieces, same, same_texts,
    split_at_char, subtexts, text_from, texts, texts_start_with, to_ascii_lower,
};

verus! {

broadcast use vstd::seq_lib::group_seq_properties;

/// A path: its components, from the root of the file system or from some directory.
pub struct FilePath {
    pub rooted: bool,
    pub parts: Vec<String>,
}

#[verifier::ext_equal]
pub struct PathParts {
    pub rooted: bool,
    pub parts: Seq<Seq<char>>,
}

impl View for FilePath {
    type V = PathParts;

    open spec fn view(&self) -> PathParts {
        PathParts { rooted: self.rooted, parts: texts(self.parts@) }
    }
}

pub open spec fn path_views(v: Seq<FilePath>) -> Seq<PathParts> {
    Seq::new(v.len(), |i: int| v[i]@)
}

pub open spec fn opt_path(path: Option<FilePath>) -> Option<PathParts> {
    match path {
        Some(path) => Some(path@),
        None => None,
    }
}

/// `inner` as seen from `outer`; one that starts at the root stays as it is.
pub open spec fn joined_path(outer: PathParts, inner: PathParts) -> PathParts {
    if inner.rooted {
        inner
    } else {
        PathParts { rooted: outer.rooted, parts: outer.parts + inner.parts }
    }
}

/// A path that starts with the components of another.
pub open spec fn path_starts_with(path: PathParts, prefix: PathParts) -> bool {
    path.rooted == prefix.rooted && prefix.parts.is_prefix_of(path.parts)
}

/// What follows a prefix.
pub open spec fn path_after(path: PathParts, prefix: PathParts) -> PathParts {
    PathParts { rooted: false, parts: path.parts.subrange(prefix.parts.len() as int, path.parts.len() as int) }
}

/// The components with slashes between them.
pub open spec fn slash_text(path: PathParts) -> Seq<char> {
    if path.rooted {
        "/"@ + joined_by(path.parts, "/"@)
    } else {
        joined_by(path.parts, "/"@)
    }
}

/// Which components of a text count: not the empty ones, and a dot only where it comes first.
pub open spec fn counted_parts(p: Seq<Seq<char>>, rooted: bool, n: nat) -> Seq<Seq<char>>
    decreases n,
{
    if n == 0 {
        Seq::empty()
    } else {
        let before = counted_parts(p, rooted, (n - 1) as nat);
        let part = p[n - 1];
        if part.len() == 0 || (part == "."@ && (rooted || n > 1)) {
            before
        } else {
            before.push(part)
        }
    }
}

/// The path that a text with slashes names.
pub open spec fn path_named(s: Seq<char>) -> PathParts {
    let p = pieces(s, '/');
    let rooted = s.len() > 0 && s[0] == '/';
    PathParts { rooted, parts: counted_parts(p, rooted, p.len()) }
}

/// Reads a path with slashes between its components.
pub fn path_from_text(s: &str) -> (r: FilePath)
    ensures
        r@ == path_named(s@),
{
    let chars = chars_of(s);
    let rooted = chars.len() > 0 && chars[0] == '/';
    let p = split_at_char(s, '/');
    let ghost all = texts(p@);
    let mut parts: Vec<String> = Vec::new();
    let mut i: usize = 0;
    assert(texts(parts@) =~= Seq::empty());
    while i < p.len()
        invariant
            i <= p.len(),
            all == texts(p@),
            texts(parts@) == counted_parts(all, rooted, i as nat),
        decreases p.len() - i,
    {
        let empty = p[i].as_str().is_empty();
        if !(empty || (same(&p[i], ".") && (rooted || i > 0))) {
            proof {
                lemma_texts_push(parts@, p@[i as int]);
            }
            parts.push(p[i].clone());
        }
        i += 1;
    }
    FilePath { rooted, parts }
}

impl FilePath {
    pub fn copy(&self) -> (r: FilePath)
        ensures
            r@ == self@,
    {
        FilePath { rooted: self.rooted, parts: clone_texts(&self.parts) }
    }

    /// A path from its components, seen from some directory.
    pub fn relative(parts: Vec<String>) -> (r: FilePath)
        ensures
            r@ == (PathParts { rooted: false, parts: texts(parts@) }),
    {
        FilePath { rooted: false, parts }
    }

    /// Whether two paths have the same components.
    pub fn is_same(&self, other: &FilePath) -> (r: bool)
        ensures
            r == (self@ == other@),
    {
        self.rooted == other.rooted && same_texts(&self.parts, &other.parts)
    }

    /// `inner` as seen from this path.
    pub fn join(&self, inner: &FilePath) -> (r: FilePath)
        ensures
            r@ == joined_path(self@, inner@),
    {
        if inner.rooted {
            return inner.copy();
        }
        self.join_parts(&inner.parts, 0)
    }

    /// This path followed by the components of a list from some place on.
    pub fn join_parts(&self, parts: &Vec<String>, from: usize) -> (r: FilePath)
        requires
            from <= parts.len(),
        ensures
            r@ == (PathParts {
                rooted: self.rooted,
                parts: self@.parts + texts(parts@).subrange(from as int, parts@.len() as int),
            }),
    {
        let mut out = clone_texts(&self.parts);
        let mut more = subtexts(parts, from, parts.len());
        let ghost a = out@;
        let ghost b = more@;
        out.append(&mut more);
        assert(texts(a + b) =~= texts(a) + texts(b));
        assert(texts(parts@).subrange(0, parts@.len() as int) =~= texts(parts@));
        FilePath { rooted: self.rooted, parts: out }
    }

    /// This path followed by one component.
    pub fn child(&self, part: &str) -> (r: FilePath)
        ensures
            r@ == (PathParts { rooted: self.rooted, parts: self@.parts.push(part@) }),
    {
        let mut out = clone_texts(&self.parts);
        let last = part.to_owned();
        proof {
            lemma_texts_push(out@, last);
        }
        out.push(last);
        FilePath { rooted: self.rooted, parts: out }
    }

    /// Whether the components of `prefix` come first.
    pub fn starts_with(&self, prefix: &FilePath) -> (r: bool)
        ensures
            r == path_starts_with(self@, prefix@),
    {
        self.rooted == prefix.rooted && texts_start_with(&self.parts, &prefix.parts)
    }

    /// What follows `prefix`, where that comes first.
    pub fn strip_prefix(&self, prefix: &FilePath) -> (r: Option<FilePath>)
        ensures
            r is Some <==> path_starts_with(self@, prefix@),
            r is Some ==> r->0@ == path_after(self@, prefix@),
    {
        if self.starts_with(prefix) {
            assert(texts(prefix.parts@).len() <= texts(self.parts@).len());
            Some(FilePath { rooted: false, parts: subtexts(&self.parts, prefix.parts.len(), self.parts.len()) })
        } else {
            None
        }
    }

    /// The directory that holds this path.
    pub fn parent(&self) -> (r: Option<FilePath>)
        ensures
            r is Some <==> self@.parts.len() > 0,
            r is Some ==> r->0@ == (PathParts { rooted: self.rooted, parts: self@.parts.drop_last() }),
    {
        if self.parts.len() == 0 {
            return None;
        }
        assert(texts(self.parts@).subrange(0, self.parts@.len() - 1) =~= texts(self.parts@).drop_last());
        Some(FilePath { rooted: self.rooted, parts: subtexts(&self.parts, 0, self.parts.len() - 1) })
    }

    /// The last component, or an empty text where there is none or it leads upward.
    pub fn file_name(&self) -> (r: String)
        ensures
            r@ == last_name(self@),
    {
        if self.parts.len() == 0 {
            proof {
                reveal_strlit("");
            }
            return "".to_owned();
        }
        let last = &self.parts[self.parts.len() - 1];
        assert(self@.parts.last() == last@);
        if same(last, "..") || same(last, ".") {
            proof {
                reveal_strlit("");
            }
            return "".to_owned();
        }
        last.clone()
    }

    /// The components with slashes between them.
    pub fn to_slash(&self) -> (r: String)
        ensures
            r@ == slash_text(self@),
    {
        let rest = join_texts(&self.parts, "/");
        if self.rooted {
            joined("/", &rest)
        } else {
            rest
        }
    }
}

/// The last component of a path, or nothing where there is none or it leads upward.
pub open spec fn last_name(path: PathParts) -> Seq<char> {
    if path.parts.len() == 0 || path.parts.last() == ".."@ || path.parts.last() == "."@ {
        Seq::empty()
    } else {
        path.parts.last()
    }
}

/// Joining a prefix with what follows it gives the path back.
pub proof fn law_strip_then_join(path: PathParts, prefix: PathParts)
    requires
        path_starts_with(path, prefix),
    ensures
        joined_path(prefix, path_after(path, prefix)) == path,
{
    assert(prefix.parts + path.parts.subrange(prefix.parts.len() as int, path.parts.len() as int) =~= path.parts);
}

/// What is joined to a path follows it.
pub proof fn law_join_then_strip(outer: PathParts, inner: PathParts)
    requires
        !inner.rooted,
    ensures
        path_starts_with(joined_path(outer, inner), outer),
        path_after(joined_path(outer, inner), outer) == inner,
{
    let all = outer.parts + inner.parts;
    assert(all.subrange(0, outer.parts.len() as int) =~= outer.parts);
    assert(all.subrange(outer.parts.len() as int, all.len() as int) =~= inner.parts);
}

/// The components that name something: no dots.
pub open spec fn named_parts(parts: Seq<Seq<char>>, n: nat) -> Seq<Seq<char>>
    decreases n,
{
    if n == 0 {
        Seq::empty()
    } else {
        let before = named_parts(parts, (n - 1) as nat);
        if parts[n - 1] == "."@ || parts[n - 1] == ".."@ {
            before
        } else {
            before.push(parts[n - 1])
        }
    }
}

/// The names on a path.
pub fn path_segments(path: &FilePath) -> (r: Vec<String>)
    ensures
        texts(r@) == named_parts(path@.parts, path@.parts.len()),
{
    let mut out: Vec<String> = Vec::new();
    let mut i: usize = 0;
    assert(texts(out@) =~= Seq::empty());
    while i < path.parts.len()
        invariant
            i <= path.parts.len(),
            texts(out@) == named_parts(path@.parts, i as nat),
        decreases path.parts.len() - i,
    {
        assert(path@.parts[i as int] == path.parts@[i as int]@);
        if !(same(&path.parts[i], ".") || same(&path.parts[i], "..")) {
            proof {
                lemma_texts_push(out@, path.parts@[i as int]);
            }
            out.push(path.parts[i].clone());
        }
        i += 1;
    }
    out
}

/// A name that ends in a suffix, whatever the case of its ASCII letters.
pub open spec fn ends_in(name: Seq<char>, suffix: Seq<char>) -> bool {
    ascii_lower(suffix).is_suffix_of(ascii_lower(name))
}

pub fn ends_with_ignore_ascii_case(name: &str, suffix: &str) -> (r: bool)
    ensures
        r == ends_in(name@, suffix@),
{
    let a = to_ascii_lower(name);
    let b = to_ascii_lower(suffix);
    ends_with(&a, &b)
}

/// Where the last dot of a text stands, if there is one.
pub open spec fn last_dot(s: Seq<char>) -> int
    decreases s.len(),
{
    if s.len() == 0 {
        -1
    } else if s.last() == '.' {
        s.len() - 1
    } else {
        last_dot(s.drop_last())
    }
}

/// The extension of a name: what follows its last dot, unless that comes first.
pub open spec fn extension_of(name: Seq<char>) -> Option<Seq<char>> {
    let dot = last_dot(name);
    if dot <= 0 {
        None
    } else {
        Some(name.subrange(dot + 1, name.len() as int))
    }
}

/// The name without its extension.
pub open spec fn stem_of(name: Seq<char>) -> Seq<char> {
    let dot = last_dot(name);
    if dot <= 0 {
        name
    } else {
        name.take(dot)
    }
}

/// Splits a name at its last dot: the part before, and the extension where there is one.
pub fn split_extension(name: &str) -> (r: (String, Option<String>))
    ensures
        r.0@ == stem_of(name@),
        r.1 is Some <==> extension_of(name@) is Some,
        r.1 is Some ==> Some(r.1->0@) == extension_of(name@),
{
    let chars = chars_of(name);
    let mut i: usize = chars.len();
    assert(name@.take(name@.len() as int) =~= name@);
    while i > 0 && chars[i - 1] != '.'
        invariant
            i <= chars.len(),
            chars@ == name@,
            last_dot(name@) == last_dot(name@.take(i as int)),
        decreases i,
    {
        assert(name@.take(i as int).drop_last() =~= name@.take(i - 1));
        i -= 1;
    }
    if i <= 1 {
        if i == 1 {
            assert(name@.take(1).last() == '.');
        }
        return (name.to_owned(), None);
    }
    assert(name@.take(i as int).last() == '.');
    assert(name@.subrange(0, i - 1) =~= name@.take(i - 1));
    (text_from(&chars, 0, i - 1), Some(text_from(&chars, i, chars.len())))
}

/// A path whose extension is one of some, whatever the case of its ASCII letters.
pub open spec fn has_extension(path: PathParts, wanted: Seq<Seq<char>>) -> bool {
    match extension_of(last_name(path)) {
        Some(e) => exists|i: int| 0 <= i < wanted.len() && ascii_lower(#[trigger] wanted[i]) == ascii_lower(e),
        None => false,
    }
}

/// Whether the extension of a path is one of some.
pub fn path_extension_is(path: &FilePath, wanted: &Vec<String>) -> (r: bool)
    ensures
        r == has_extension(path@, texts(wanted@)),
{
    let name = path.file_name();
    let (_, extension) = split_extension(&name);
    match extension {
        None => false,
        Some(e) => {
            let lower = to_ascii_lower(&e);
            let mut i: usize = 0;
            while i < wanted.len()
                invariant
                    i <= wanted.len(),
                    lower@ == ascii_lower(e@),
                    extension_of(last_name(path@)) == Some(e@),
                    forall|j: int| 0 <= j < i ==> ascii_lower(#[trigger] texts(wanted@)[j]) != lower@,
                decreases wanted.len() - i,
            {
                let other = to_ascii_lower(&wanted[i]);
                if same(&other, &lower) {
                    assert(ascii_lower(texts(wanted@)[i as int]) == ascii_lower(e@));
                    return true;
                }
                i += 1;
            }
            false
        },
    }
}

/// A nested project, by the name of its file.
pub open spec fn is_project_name(name: Seq<char>) -> bool {
    ends_in(name, ".project.json"@) || ends_in(name, ".project.jsonc"@)
}

pub fn is_nested_project_path(path: &FilePath) -> (r: bool)
    ensures
        r == is_project_name(last_name(path@)),
{
    let name = path.file_name();
    ends_with_ignore_ascii_case(&name, ".project.json") || ends_with_ignore_ascii_case(&name, ".project.jsonc")
}

/// A control character.
pub open spec fn is_control_char(c: char) -> bool {
    c as u32 <= 0x1f || 0x7f <= c as u32 <= 0x9f
}

/// A character that some platforms keep out of the names of files.
pub open spec fn is_reserved_char(c: char) -> bool {
    c == '<' || c == '>' || c == ':' || c == '"' || c == '|' || c == '?' || c == '*'
}

/// Every character may stand in the name of a file everywhere.
pub open spec fn portable_chars(s: Seq<char>) -> bool {
    forall|i: int| 0 <= i < s.len() ==> !is_control_char(#[trigger] s[i]) && !is_reserved_char(s[i])
}

fn has_portable_chars(s: &Vec<char>) -> (r: bool)
    ensures
        r == portable_chars(s@),
{
    let mut i: usize = 0;
    while i < s.len()
        invariant
            i <= s.len(),
            forall|j: int| 0 <= j < i ==> !is_control_char(#[trigger] s@[j]) && !is_reserved_char(s@[j]),
        decreases s.len() - i,
    {
        let c = s[i];
        let n = c as u32;
        if n <= 0x1f || (0x7f <= n && n <= 0x9f) || c == '<' || c == '>' || c == ':' || c == '"' || c == '|' || c == '?' || c
            == '*' {
            return false;
        }
        i += 1;
    }
    true
}

/// What comes before the first dot.
pub open spec fn before_dot(s: Seq<char>) -> Seq<char> {
    pieces(s, '.')[0]
}

/// A device name followed by a digit from one to nine.
pub open spec fn is_numbered_device(s: Seq<char>, device: Seq<char>) -> bool {
    s.len() == 4 && s.take(3) == device && '1' <= s[3] <= '9'
}

/// A name that Windows keeps for a device, with or without an extension.
pub open spec fn is_device_name(name: Seq<char>) -> bool {
    let s = ascii_lower(before_dot(name));
    s == "con"@ || s == "prn"@ || s == "aux"@ || s == "nul"@ || is_numbered_device(s, "com"@) || is_numbered_device(s, "lpt"@)
}

/// Whether Windows keeps a name for a device.
pub fn is_windows_reserved_name(name: &str) -> (r: bool)
    ensures
        r == is_device_name(name@),
{
    let p = split_at_char(name, '.');
    proof {
        crate::text::lemma_pieces_not_empty(name@, '.');
        assert(texts(p@).len() == p@.len());
    }
    assert(texts(p@)[0] == p@[0]@);
    let s = to_ascii_lower(&p[0]);
    if same(&s, "con") || same(&s, "prn") || same(&s, "aux") || same(&s, "nul") {
        return true;
    }
    let chars = chars_of(&s);
    if chars.len() != 4 || !('1' <= chars[3] && chars[3] <= '9') {
        return false;
    }
    let device = text_from(&chars, 0, 3);
    assert(s@.subrange(0, 3) =~= s@.take(3));
    same(&device, "com") || same(&device, "lpt")
}

/// What is wrong with a path that should stay inside a project.
#[derive(PartialEq, Eq, Structural, Clone, Copy, Debug)]
pub enum PortableError {
    Empty,
    Absolute,
    LeavesProject,
    /// Some component can not be held by every platform.
    Segment(usize),
}

/// A component that every platform can hold.
pub open spec fn portable_segment(s: Seq<char>) -> bool {
    &&& portable_chars(s)
    &&& s.len() > 0 ==> s.last() != ' ' && s.last() != '.'
    &&& !is_device_name(s)
}

/// Whether a path stays inside a project and can be held by every platform.
pub open spec fn portable_path(path: PathParts) -> Result<(), PortableError> {
    if path.rooted {
        Err(PortableError::Absolute)
    } else if path.parts.len() == 0 {
        Err(PortableError::Empty)
    } else if path.parts.contains(".."@) {
        Err(PortableError::LeavesProject)
    } else {
        segments_portable(path.parts, 0)
    }
}

/// The components from `i` on are checked in turn.
pub open spec fn segments_portable(parts: Seq<Seq<char>>, i: int) -> Result<(), PortableError>
    decreases parts.len() - i,
{
    if i < 0 || i >= parts.len() {
        Ok(())
    } else if !portable_segment(parts[i]) {
        Err(PortableError::Segment(i as usize))
    } else {
        segments_portable(parts, i + 1)
    }
}

fn is_portable_segment(s: &str) -> (r: bool)
    ensures
        r == portable_segment(s@),
{
    let chars = chars_of(s);
    if !has_portable_chars(&chars) {
        return false;
    }
    let n = chars.len();
    if n > 0 && (chars[n - 1] == ' ' || chars[n - 1] == '.') {
        return false;
    }
    !is_windows_reserved_name(s)
}

/// Checks that a path stays inside a project and can be held by every platform.
pub fn validate_relative_portable_path(path: &FilePath) -> (r: Result<(), PortableError>)
    ensures
        r == portable_path(path@),
{
    if path.rooted {
        return Err(PortableError::Absolute);
    }
    if path.parts.len() == 0 {
        return Err(PortableError::Empty);
    }
    if crate::text::holds_text(&path.parts, "..") {
        return Err(PortableError::LeavesProject);
    }
    let mut i: usize = 0;
    while i < path.parts.len()
        invariant
            i <= path.parts.len(),
            portable_path(path@) == segments_portable(path@.parts, i as int),
        decreases path.parts.len() - i,
    {
        assert(path@.parts[i as int] == path.parts@[i as int]@);
        if !is_portable_segment(&path.parts[i]) {
            return Err(PortableError::Segment(i));
        }
        i += 1;
    }
    Ok(())
}

/// A path that was found portable stays below what it is joined to.
pub proof fn law_portable_path_stays_inside(root: PathParts, path: PathParts)
    requires
        portable_path(path) is Ok,
    ensures
        path_starts_with(joined_path(root, path), root),
        !path.parts.contains(".."@),
        forall|i: int| 0 <= i < path.parts.len() ==> portable_segment(#[trigger] path.parts[i]),
{
    law_join_then_strip(root, path);
    assert forall|i: int| 0 <= i < path.parts.len() implies portable_segment(#[trigger] path.parts[i]) by {
        lemma_segments_portable(path.parts, 0, i);
    }
}

proof fn lemma_segments_portable(parts: Seq<Seq<char>>, from: int, i: int)
    requires
        0 <= from <= i < parts.len(),
        segments_portable(parts, from) is Ok,
    ensures
        portable_segment(parts[i]),
    decreases i - from,
{
    if from < i {
        lemma_segments_portable(parts, from + 1, i);
    }
}

} // verus!
