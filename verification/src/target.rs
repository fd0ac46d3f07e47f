//! Targets: the place of an instance in a project, by the names on the way to it.
use vstd::prelude::*;

use crate::text::{
    clone_numbers, clone_texts, decimal, join_texts, joined, joined_by, ones, pieces, same_texts, split_at_char, texts,
    texts_start_with, to_decimal,
};

verus! {

broadcast use vstd::seq_lib::group_seq_properties;

/// A target as a project writes it: names with dots between them, or a list of names with ordinals that
/// tell instances of one name apart.
#[derive(Clone, Debug, PartialEq, Eq, PartialOrd, Ord)]
pub enum ProjectTarget {
    Shorthand(String),
    Structured { segments: Vec<String>, ordinals: Vec<usize> },
}

/// The names and ordinals of a target.
#[verifier::ext_equal]
pub struct PathModel {
    pub segments: Seq<Seq<char>>,
    pub ordinals: Seq<usize>,
}

impl View for ProjectTarget {
    type V = PathModel;

    open spec fn view(&self) -> PathModel {
        match self {
            ProjectTarget::Shorthand(value) => PathModel { segments: pieces(value@, '.'), ordinals: Seq::empty() },
            ProjectTarget::Structured { segments, ordinals } => PathModel {
                segments: texts(segments@),
                ordinals: ordinals@,
            },
        }
    }
}

/// The ordinal of a segment; one where none is given.
pub open spec fn ordinal_or_one(ordinals: Seq<usize>, i: int) -> usize {
    if 0 <= i < ordinals.len() {
        ordinals[i]
    } else {
        1
    }
}

/// What `serde_json::to_string` writes for the names and ordinals of a target.
pub uninterp spec fn target_json(segments: Seq<Seq<char>>, ordinals: Seq<usize>) -> Seq<char>;

/// `serde_json::to_string` of a pair of a list of strings and a list of numbers: the text depends on them
/// alone. Writing them does not fail.
#[verifier::external_body]
fn target_to_json(segments: &Vec<String>, ordinals: &Vec<usize>) -> (r: String)
    ensures
        r@ == target_json(texts(segments@), ordinals@),
{
    serde_json::to_string(&(segments, ordinals)).expect("lists of strings and numbers can be written")
}

impl ProjectTarget {
    /// The same target, written in the same way.
    pub fn copy(&self) -> (r: Self)
        ensures
            r@ == self@,
            r is Shorthand == self is Shorthand,
    {
        match self {
            ProjectTarget::Shorthand(value) => ProjectTarget::Shorthand(value.clone()),
            ProjectTarget::Structured { segments, ordinals } => ProjectTarget::Structured {
                segments: clone_texts(segments),
                ordinals: clone_numbers(ordinals),
            },
        }
    }

    /// A target from its names and ordinals.
    pub fn from_parts(segments: Vec<String>, ordinals: Vec<usize>) -> (r: Self)
        ensures
            r@ == (PathModel { segments: texts(segments@), ordinals: ordinals@ }),
            r is Structured,
    {
        ProjectTarget::Structured { segments, ordinals }
    }

    /// The names on the way to the instance.
    pub fn segments(&self) -> (r: Vec<String>)
        ensures
            texts(r@) == self@.segments,
    {
        match self {
            ProjectTarget::Shorthand(value) => split_at_char(value, '.'),
            ProjectTarget::Structured { segments, ordinals } => clone_texts(segments),
        }
    }

    /// The ordinals that are given.
    pub fn ordinals(&self) -> (r: Vec<usize>)
        ensures
            r@ == self@.ordinals,
    {
        match self {
            ProjectTarget::Shorthand(_) => Vec::new(),
            ProjectTarget::Structured { segments, ordinals } => clone_numbers(ordinals),
        }
    }

    /// What tells targets with different names or ordinals apart.
    pub fn key(&self) -> (r: String)
        ensures
            r@ == target_json(self@.segments, self@.ordinals),
    {
        let segments = self.segments();
        let ordinals = self.ordinals();
        target_to_json(&segments, &ordinals)
    }

    /// The target below a prefix with ordinals of its own; ordinals that are not given are one.
    pub fn with_prefix(&self, prefix: &Vec<String>, active: &Vec<usize>) -> (r: Self)
        ensures
            r@ == prefixed(self@, texts(prefix@), active@),
    {
        let mut segments = clone_texts(prefix);
        let mut own_segments = self.segments();
        let mut ordinals = if active.len() == 0 {
            ones(prefix.len())
        } else {
            clone_numbers(active)
        };
        let mut own_ordinals = self.ordinals();
        if own_ordinals.len() == 0 {
            own_ordinals = ones(own_segments.len());
        }
        let ghost a = segments@;
        let ghost b = own_segments@;
        segments.append(&mut own_segments);
        ordinals.append(&mut own_ordinals);
        assert(texts(a + b) =~= texts(a) + texts(b));
        assert(texts(prefix@).len() == prefix@.len());
        assert(texts(b).len() == b.len());
        ProjectTarget::Structured { segments, ordinals }
    }

    /// The target in words: its names with dots between them, and the ordinals where some are given.
    pub fn display(&self) -> (r: String)
        ensures
            r@ == match self {
                ProjectTarget::Shorthand(value) => value@,
                ProjectTarget::Structured { segments, ordinals } => if ordinals@.len() == 0 {
                    joined_by(texts(segments@), "."@)
                } else {
                    joined_by(texts(segments@), "."@) + "@["@ + joined_by(decimals(ordinals@), ", "@) + "]"@
                },
            },
    {
        match self {
            ProjectTarget::Shorthand(value) => value.clone(),
            ProjectTarget::Structured { segments, ordinals } => {
                let names = join_texts(segments, ".");
                if ordinals.len() == 0 {
                    return names;
                }
                let mut numbers: Vec<String> = Vec::new();
                let mut i: usize = 0;
                while i < ordinals.len()
                    invariant
                        i <= ordinals.len(),
                        texts(numbers@) == decimals(ordinals@).take(i as int),
                    decreases ordinals.len() - i,
                {
                    let n = to_decimal(ordinals[i] as u128);
                    proof {
                        crate::text::lemma_texts_push(numbers@, n);
                        assert(decimals(ordinals@).take(i + 1) =~= decimals(ordinals@).take(i as int).push(n@));
                    }
                    numbers.push(n);
                    i += 1;
                }
                assert(decimals(ordinals@).take(i as int) =~= decimals(ordinals@));
                let list = join_texts(&numbers, ", ");
                let a = joined(&names, "@[");
                let b = joined(&a, &list);
                joined(&b, "]")
            },
        }
    }
}

/// Numbers in decimal digits.
pub open spec fn decimals(v: Seq<usize>) -> Seq<Seq<char>> {
    Seq::new(v.len(), |i: int| decimal(v[i] as nat))
}

/// A target below a prefix.
pub open spec fn prefixed(target: PathModel, prefix: Seq<Seq<char>>, active: Seq<usize>) -> PathModel {
    let before = if active.len() == 0 {
        Seq::new(prefix.len(), |i: int| 1usize)
    } else {
        active
    };
    let own = if target.ordinals.len() == 0 {
        Seq::new(target.segments.len(), |i: int| 1usize)
    } else {
        target.ordinals
    };
    PathModel { segments: prefix + target.segments, ordinals: before + own }
}

/// Every ordinal that `wanted` gives is that of `given`, where a missing one is one.
pub open spec fn ordinals_agree(wanted: Seq<usize>, given: Seq<usize>) -> bool {
    forall|i: int| 0 <= i < wanted.len() ==> ordinal_or_one(given, i) == #[trigger] wanted[i]
}

/// A target is another or lies below it.
pub open spec fn within(target: PathModel, parent: PathModel) -> bool {
    parent.segments.is_prefix_of(target.segments) && ordinals_agree(parent.ordinals, target.ordinals)
}

/// Two targets name the same place.
pub open spec fn same_place(a: PathModel, b: PathModel) -> bool {
    a.segments == b.segments && ordinals_agree(a.ordinals, b.ordinals) && ordinals_agree(b.ordinals, a.ordinals)
}

fn agree(wanted: &Vec<usize>, given: &Vec<usize>) -> (r: bool)
    ensures
        r == ordinals_agree(wanted@, given@),
{
    let mut i: usize = 0;
    while i < wanted.len()
        invariant
            i <= wanted.len(),
            forall|j: int| 0 <= j < i ==> ordinal_or_one(given@, j) == #[trigger] wanted@[j],
        decreases wanted.len() - i,
    {
        let ordinal: usize = if i < given.len() {
            given[i]
        } else {
            1
        };
        if ordinal != wanted[i] {
            assert(ordinal_or_one(given@, i as int) != wanted@[i as int]);
            return false;
        }
        i += 1;
    }
    true
}

/// Whether a target is another or lies below it.
pub fn target_is_within(target: &ProjectTarget, parent: &ProjectTarget) -> (r: bool)
    ensures
        r == within(target@, parent@),
{
    let target_segments = target.segments();
    let parent_segments = parent.segments();
    let target_ordinals = target.ordinals();
    let parent_ordinals = parent.ordinals();
    texts_start_with(&target_segments, &parent_segments) && agree(&parent_ordinals, &target_ordinals)
}

/// Whether two targets name the same place.
pub fn targets_are_equal(left: &ProjectTarget, right: &ProjectTarget) -> (r: bool)
    ensures
        r == same_place(left@, right@),
{
    let left_segments = left.segments();
    let right_segments = right.segments();
    let left_ordinals = left.ordinals();
    let right_ordinals = right.ordinals();
    same_texts(&left_segments, &right_segments) && agree(&left_ordinals, &right_ordinals) && agree(
        &right_ordinals,
        &left_ordinals,
    )
}

/// Naming the same place is an equivalence.
pub proof fn law_same_place_is_an_equivalence(a: PathModel, b: PathModel, c: PathModel)
    ensures
        same_place(a, a),
        same_place(a, b) == same_place(b, a),
        same_place(a, b) && same_place(b, c) ==> same_place(a, c),
{
    if same_place(a, b) && same_place(b, c) {
        lemma_agree(a.ordinals, b.ordinals, c.ordinals);
        lemma_agree(c.ordinals, b.ordinals, a.ordinals);
    }
}

/// An ordinal at any index agrees, where those of two lists agree both ways.
proof fn lemma_agree(a: Seq<usize>, b: Seq<usize>, c: Seq<usize>)
    requires
        ordinals_agree(a, b),
        ordinals_agree(b, a),
        ordinals_agree(b, c),
        ordinals_agree(c, b),
    ensures
        ordinals_agree(a, c),
{
    assert forall|i: int| 0 <= i < a.len() implies ordinal_or_one(c, i) == #[trigger] a[i] by {
        assert(ordinal_or_one(b, i) == a[i]);
        if i < b.len() {
            assert(ordinal_or_one(c, i) == b[i]);
        } else if i < c.len() {
            assert(ordinal_or_one(b, i) == c[i]);
        }
    }
}

/// Targets that lie within each other name the same place.
pub proof fn law_within_both_ways_is_the_same_place(a: PathModel, b: PathModel)
    requires
        within(a, b),
        within(b, a),
    ensures
        same_place(a, b),
{
    assert(a.segments.subrange(0, a.segments.len() as int) =~= a.segments);
    assert(b.segments.subrange(0, b.segments.len() as int) =~= b.segments);
}

/// Lying within a target is passed on, where every target has at most one ordinal for each segment.
pub proof fn law_within_is_transitive(a: PathModel, b: PathModel, c: PathModel)
    requires
        within(a, b),
        within(b, c),
        c.ordinals.len() <= b.ordinals.len(),
    ensures
        within(a, c),
{
    assert(c.segments =~= a.segments.subrange(0, c.segments.len() as int));
    assert forall|i: int| 0 <= i < c.ordinals.len() implies ordinal_or_one(a.ordinals, i) == #[trigger] c.ordinals[i] by {
        assert(ordinal_or_one(b.ordinals, i) == c.ordinals[i]);
        assert(ordinal_or_one(a.ordinals, i) == b.ordinals[i]);
    }
}

/// The targets whose contents are being worked on, outermost first.
pub struct TargetStack {
    pub segments: Vec<Vec<String>>,
    pub ordinals: Vec<Vec<usize>>,
}

impl TargetStack {
    pub open spec fn wf(&self) -> bool {
        self.segments@.len() == self.ordinals@.len()
    }

    /// The entry at a place of the stack.
    pub open spec fn at(&self, i: int) -> PathModel {
        PathModel { segments: texts(self.segments@[i]@), ordinals: self.ordinals@[i]@ }
    }

    /// `i` is the innermost entry that a target lies at or below.
    pub open spec fn is_active(&self, target: Seq<Seq<char>>, i: int) -> bool {
        &&& 0 <= i < self.segments@.len()
        &&& self.at(i).segments.is_prefix_of(target)
        &&& forall|j: int| i < j < self.segments@.len() ==> !(#[trigger] self.at(j)).segments.is_prefix_of(target)
    }

    pub open spec fn none_active(&self, target: Seq<Seq<char>>) -> bool {
        forall|j: int| 0 <= j < self.segments@.len() ==> !(#[trigger] self.at(j)).segments.is_prefix_of(target)
    }

    pub fn new() -> (r: TargetStack)
        ensures
            r.wf(),
            r.segments@.len() == 0,
    {
        TargetStack { segments: Vec::new(), ordinals: Vec::new() }
    }

    /// Starts work on a target.
    pub fn push(&mut self, target: &ProjectTarget)
        requires
            old(self).wf(),
        ensures
            final(self).wf(),
            final(self).segments@.len() == old(self).segments@.len() + 1,
            final(self).at(old(self).segments@.len() as int) == target@,
            forall|i: int| 0 <= i < old(self).segments@.len() ==> final(self).at(i) == old(self).at(i),
    {
        self.segments.push(target.segments());
        self.ordinals.push(target.ordinals());
    }

    /// Ends work on the target that was last started.
    pub fn pop(&mut self)
        requires
            old(self).wf(),
            old(self).segments@.len() > 0,
        ensures
            final(self).wf(),
            final(self).segments@ == old(self).segments@.drop_last(),
            final(self).ordinals@ == old(self).ordinals@.drop_last(),
    {
        self.segments.pop();
        self.ordinals.pop();
    }

    /// The ordinals of a target in the work at hand: those of the innermost target that it lies at or below,
    /// and one for each segment further down; none where it lies below none.
    pub fn active_target_ordinals(&self, target: &Vec<String>) -> (r: Vec<usize>)
        requires
            self.wf(),
        ensures
            (self.none_active(texts(target@)) && r@.len() == 0) || (exists|i: int| #[trigger]
                self.is_active(texts(target@), i) && r@ == active_ordinals(self.at(i), texts(target@))),
    {
        let mut i: usize = self.segments.len();
        while i > 0
            invariant
                self.wf(),
                i <= self.segments@.len(),
                forall|j: int|
                    i <= j < self.segments@.len() ==> !(#[trigger] self.at(j)).segments.is_prefix_of(texts(target@)),
            decreases i,
        {
            i -= 1;
            if texts_start_with(target, &self.segments[i]) {
                assert(self.is_active(texts(target@), i as int));
                assert(self.segments@[i as int]@.len() == texts(self.segments@[i as int]@).len());
                assert(target@.len() == texts(target@).len());
                let given = &self.ordinals[i];
                if same_texts(&self.segments[i], target) {
                    return clone_numbers(given);
                }
                let mut out = if given.len() == 0 {
                    ones(self.segments[i].len())
                } else {
                    clone_numbers(given)
                };
                let ghost start = out@;
                if out.len() > target.len() {
                    out.truncate(target.len());
                    assert(out@ =~= active_ordinals(self.at(i as int), texts(target@)));
                    return out;
                }
                while out.len() < target.len()
                    invariant
                        start.len() <= out@.len() <= target.len(),
                        forall|k: int| 0 <= k < start.len() ==> out@[k] == start[k],
                        forall|k: int| start.len() <= k < out@.len() ==> out@[k] == 1,
                    decreases target.len() - out.len(),
                {
                    out.push(1);
                }
                assert(out@ =~= active_ordinals(self.at(i as int), texts(target@)));
                return out;
            }
        }
        Vec::new()
    }
}

/// The ordinals that an entry gives a target at or below it.
pub open spec fn active_ordinals(entry: PathModel, target: Seq<Seq<char>>) -> Seq<usize> {
    if entry.segments == target {
        entry.ordinals
    } else {
        let given = if entry.ordinals.len() == 0 {
            Seq::new(entry.segments.len(), |i: int| 1usize)
        } else {
            entry.ordinals
        };
        Seq::new(
            target.len(),
            |i: int|
                if i < given.len() {
                    given[i]
                } else {
                    1usize
                },
        )
    }
}

} // verus!
