//! Merging a snapshot of a service with what the project holds, instance by instance.
use vstd::prelude::*;

use crate::link_apply::value_of;
use crate::table::{key_views, Table};
use crate::text::texts;

verus! {

broadcast use vstd::seq_lib::group_seq_properties;

/// The instances of one side: their ids, and the index of each one's parent.
pub struct SideInstances {
    pub ids: Vec<String>,
    pub parents: Vec<Option<usize>>,
}

#[verifier::ext_equal]
pub struct SideModel {
    pub ids: Seq<Seq<char>>,
    pub parents: Seq<Option<usize>>,
}

impl View for SideInstances {
    type V = SideModel;

    open spec fn view(&self) -> SideModel {
        SideModel { ids: texts(self.ids@), parents: self.parents@ }
    }
}

impl SideModel {
    /// There is one parent for each id.
    pub open spec fn wf(self) -> bool {
        self.ids.len() == self.parents.len()
    }

    /// The id of an instance's parent.
    pub open spec fn parent_id(self, i: int) -> Option<Seq<char>> {
        if 0 <= i < self.parents.len() && self.parents[i] is Some && self.parents[i]->0 < self.ids.len() {
            Some(self.ids[self.parents[i]->0 as int])
        } else {
            None
        }
    }

    /// `i` is the instance that an id stands for: the last with it.
    pub open spec fn is_at(self, id: Seq<char>, i: int) -> bool {
        &&& 0 <= i < self.ids.len()
        &&& self.ids[i] == id
        &&& forall|j: int| i < j < self.ids.len() ==> #[trigger] self.ids[j] != id
    }

    pub open spec fn has(self, id: Seq<char>) -> bool {
        self.ids.contains(id)
    }
}

/// An instance of one side.
#[derive(PartialEq, Eq, Structural, Clone, Copy, Debug)]
pub struct Choice {
    /// Whether it comes from the snapshot.
    pub incoming: bool,
    pub index: usize,
}

impl View for Choice {
    type V = Choice;

    open spec fn view(&self) -> Choice {
        *self
    }
}

/// Both sides.
#[verifier::ext_equal]
pub struct Sides {
    pub incoming: SideModel,
    pub existing: SideModel,
}

impl Sides {
    pub open spec fn side(self, incoming: bool) -> SideModel {
        if incoming {
            self.incoming
        } else {
            self.existing
        }
    }

    /// The id of a choice.
    pub open spec fn id(self, c: Choice) -> Seq<char> {
        self.side(c.incoming).ids[c.index as int]
    }

    pub open spec fn parent_id(self, c: Choice) -> Option<Seq<char>> {
        self.side(c.incoming).parent_id(c.index as int)
    }

    /// A choice is an instance with an id.
    pub open spec fn chooses(self, id: Seq<char>, c: Choice) -> bool {
        c.index < self.side(c.incoming).ids.len() && self.id(c) == id
    }
}

/// Which parent each instance has, from the children of each: where an instance is a child of several,
/// the last counts.
pub open spec fn parents_from(children: Seq<Seq<usize>>, n: nat, m: nat, len: nat) -> Seq<Option<usize>>
    decreases n, m,
{
    if n == 0 {
        Seq::new(len, |i: int| None)
    } else if m == 0 {
        if n == 1 {
            Seq::new(len, |i: int| None)
        } else {
            parents_from(children, (n - 1) as nat, children[n - 2].len(), len)
        }
    } else {
        let before = parents_from(children, n, (m - 1) as nat, len);
        let child = children[n - 1][m - 1];
        if child < len {
            before.update(child as int, Some((n - 1) as usize))
        } else {
            before
        }
    }
}

/// The children of each instance.
pub open spec fn child_lists(v: Seq<Vec<usize>>) -> Seq<Seq<usize>> {
    Seq::new(v.len(), |i: int| v[i]@)
}

/// All parents, from the children of each instance.
pub open spec fn all_parents(children: Seq<Seq<usize>>, len: nat) -> Seq<Option<usize>> {
    if children.len() == 0 {
        Seq::new(len, |i: int| None)
    } else {
        parents_from(children, children.len(), children.last().len(), len)
    }
}

/// Finds each instance's parent from the children of each. Lists beyond the instances are not counted.
pub fn snapshot_parents(children: &Vec<Vec<usize>>, len: usize) -> (r: Vec<Option<usize>>)
    requires
        children@.len() <= len,
    ensures
        r@ == all_parents(child_lists(children@), len as nat),
{
    let ghost lists = child_lists(children@);
    let mut out: Vec<Option<usize>> = Vec::new();
    while out.len() < len
        invariant
            out@.len() <= len,
            out@ == Seq::new(out@.len(), |i: int| None::<usize>),
        decreases len - out.len(),
    {
        out.push(None);
    }
    assert(out@ =~= Seq::new(len as nat, |i: int| None::<usize>));
    let mut p: usize = 0;
    while p < children.len()
        invariant
            p <= children.len() <= len,
            lists == child_lists(children@),
            out@.len() == len,
            out@ == if p == 0 {
                Seq::new(len as nat, |i: int| None::<usize>)
            } else {
                parents_from(lists, p as nat, lists[p - 1].len(), len as nat)
            },
        decreases children.len() - p,
    {
        let list = &children[p];
        assert(lists[p as int] == list@);
        let mut k: usize = 0;
        assert(out@ =~= parents_from(lists, (p + 1) as nat, 0, len as nat));
        while k < list.len()
            invariant
                k <= list.len(),
                p < children.len() <= len,
                lists == child_lists(children@),
                *list == children@[p as int],
                out@.len() == len,
                out@ == parents_from(lists, (p + 1) as nat, k as nat, len as nat),
            decreases list.len() - k,
        {
            let child = list[k];
            assert(lists[p as int][k as int] == child);
            if child < len {
                out.set(child, Some(p));
            }
            k += 1;
        }
        p += 1;
    }
    out
}

/// What is selected before parents are added: every incoming instance that the filters allow, and the
/// root; for one that they do not, what the project holds under its id; and of what the project
/// alone holds, all that the filters do not allow to change.
pub open spec fn selected_incoming(s: Sides, root: int, allowed: Seq<bool>, n: nat) -> Map<Seq<char>, Choice>
    decreases n,
{
    if n == 0 {
        Map::empty()
    } else {
        let before = selected_incoming(s, root, allowed, (n - 1) as nat);
        let id = s.incoming.ids[n - 1];
        if n - 1 == root || allowed[n - 1] {
            before.insert(id, Choice { incoming: true, index: (n - 1) as usize })
        } else if s.existing.has(id) {
            before.insert(id, Choice { incoming: false, index: last_at(s.existing, id) as usize })
        } else {
            before
        }
    }
}

/// The last instance with an id.
pub open spec fn last_at(side: SideModel, id: Seq<char>) -> int {
    choose|i: int| side.is_at(id, i)
}

pub open spec fn selected(s: Sides, root: int, allowed: Seq<bool>, removable: Seq<bool>, n: nat) -> Map<Seq<char>, Choice>
    decreases n,
{
    if n == 0 {
        selected_incoming(s, root, allowed, s.incoming.ids.len())
    } else {
        let before = selected(s, root, allowed, removable, (n - 1) as nat);
        let id = s.existing.ids[n - 1];
        if s.incoming.has(id) || removable[n - 1] {
            before
        } else {
            before.insert(id, Choice { incoming: false, index: (n - 1) as usize })
        }
    }
}

/// `after` is a selection with all the parents that it needs: what was selected stays; every parent of
/// something selected is selected; and what was added is reached from what was selected by a chain of
/// parents, each from the side of the one below it.
pub open spec fn closed_over_parents(s: Sides, before: Map<Seq<char>, Choice>, after: Map<Seq<char>, Choice>) -> bool {
    &&& forall|id: Seq<char>| #[trigger]
        before.dom().contains(id) ==> after.dom().contains(id) && after[id] == before[id]
    &&& forall|id: Seq<char>| #[trigger]
        after.dom().contains(id) && s.parent_id(after[id]) is Some ==> after.dom().contains(s.parent_id(after[id])->0)
    &&& forall|id: Seq<char>| #[trigger]
        after.dom().contains(id) ==> is_reached(s, before, after, id)
}

/// An id is reached from what was selected first by a chain of parents.
pub open spec fn is_reached(s: Sides, before: Map<Seq<char>, Choice>, after: Map<Seq<char>, Choice>, id: Seq<char>) -> bool {
    exists|steps: nat| #[trigger] reached_in(s, before, after, id, steps)
}

/// A chain of so many parents leads from what was selected first to an id.
pub open spec fn reached_in(
    s: Sides,
    before: Map<Seq<char>, Choice>,
    after: Map<Seq<char>, Choice>,
    id: Seq<char>,
    steps: nat,
) -> bool
    decreases steps,
{
    if steps == 0 {
        before.dom().contains(id)
    } else {
        exists|child: Seq<char>| #[trigger]
            is_parent_choice(s, after, child, id) && reached_in(s, before, after, child, (steps - 1) as nat)
    }
}

/// What is selected under `child` has its parent under `id`, and that parent was chosen from the same side.
pub open spec fn is_parent_choice(s: Sides, sel: Map<Seq<char>, Choice>, child: Seq<char>, id: Seq<char>) -> bool {
    &&& sel.dom().contains(child)
    &&& s.parent_id(sel[child]) == Some(id)
    &&& sel[id].incoming == sel[child].incoming
    &&& s.side(sel[child].incoming).is_at(id, sel[id].index as int)
}

proof fn lemma_reached_grows(
    s: Sides,
    before: Map<Seq<char>, Choice>,
    sel: Map<Seq<char>, Choice>,
    more: Map<Seq<char>, Choice>,
    id: Seq<char>,
    steps: nat,
)
    requires
        forall|x: Seq<char>| #[trigger] sel.dom().contains(x) ==> more.dom().contains(x) && more[x] == sel[x],
        forall|x: Seq<char>| #[trigger] before.dom().contains(x) ==> sel.dom().contains(x),
        sel.dom().contains(id),
        reached_in(s, before, sel, id, steps),
    ensures
        reached_in(s, before, more, id, steps),
    decreases steps,
{
    if steps > 0 {
        let child = choose|child: Seq<char>| #[trigger]
            is_parent_choice(s, sel, child, id) && reached_in(s, before, sel, child, (steps - 1) as nat);
        assert(sel.dom().contains(child));
        lemma_reached_grows(s, before, sel, more, child, (steps - 1) as nat);
        assert(is_parent_choice(s, more, child, id));
    }
}

proof fn lemma_is_at_once(side: SideModel, id: Seq<char>, a: int, b: int)
    requires
        side.is_at(id, a),
        side.is_at(id, b),
    ensures
        a == b,
{
    if a < b {
        assert(side.ids[b] != id);
    } else if b < a {
        assert(side.ids[a] != id);
    }
}

/// Which instance each id stands for.
fn index_by_id(side: &SideInstances) -> (r: Table<String, usize>)
    ensures
        forall|id: Seq<char>| #[trigger] r@.dom().contains(id) <==> side@.has(id),
        forall|id: Seq<char>| #[trigger] r@.dom().contains(id) ==> side@.is_at(id, r@[id] as int),
{
    let mut out: Table<String, usize> = Table::new();
    let mut i: usize = 0;
    while i < side.ids.len()
        invariant
            i <= side.ids.len(),
            forall|id: Seq<char>| #[trigger] out@.dom().contains(id) <==> side@.ids.take(i as int).contains(id),
            forall|id: Seq<char>| #[trigger]
                out@.dom().contains(id) ==> out@[id] < i && side@.ids[out@[id] as int] == id && (forall|j: int|
                    out@[id] < j < i ==> #[trigger] side@.ids[j] != id),
        decreases side.ids.len() - i,
    {
        let ghost before = out@;
        let ghost id = side@.ids[i as int];
        let ghost done = side@.ids.take(i as int);
        let ghost next = side@.ids.take(i + 1);
        proof {
            assert(next =~= done.push(id));
            assert(next[i as int] == id);
            assert forall|x: Seq<char>| next.contains(x) == (done.contains(x) || x == id) by {
                if done.contains(x) {
                    let at = choose|at: int| 0 <= at < done.len() && done[at] == x;
                    assert(next[at] == x);
                }
                if next.contains(x) && x != id {
                    let at = choose|at: int| 0 <= at < next.len() && next[at] == x;
                    assert(done[at] == x);
                }
            }
        }
        out.put(side.ids[i].clone(), i);
        assert(out@ == before.insert(id, i));
        i += 1;
    }
    assert(side@.ids.take(i as int) =~= side@.ids);
    out
}

/// Every choice of a selection is an instance with its id.
pub open spec fn sound(s: Sides, sel: Map<Seq<char>, Choice>) -> bool {
    forall|id: Seq<char>| #[trigger] sel.dom().contains(id) ==> s.chooses(id, sel[id])
}

fn select_initial(
    incoming: &SideInstances,
    existing: &SideInstances,
    existing_by_id: &Table<String, usize>,
    incoming_by_id: &Table<String, usize>,
    root: usize,
    allowed: &Vec<bool>,
    removable: &Vec<bool>,
) -> (r: Table<String, Choice>)
    requires
        incoming@.wf(),
        existing@.wf(),
        allowed@.len() == incoming@.ids.len(),
        removable@.len() == existing@.ids.len(),
        forall|id: Seq<char>| #[trigger] existing_by_id@.dom().contains(id) <==> existing@.has(id),
        forall|id: Seq<char>| #[trigger]
            existing_by_id@.dom().contains(id) ==> existing@.is_at(id, existing_by_id@[id] as int),
        forall|id: Seq<char>| #[trigger] incoming_by_id@.dom().contains(id) <==> incoming@.has(id),
    ensures
        r@ == selected(
            Sides { incoming: incoming@, existing: existing@ },
            root as int,
            allowed@,
            removable@,
            existing@.ids.len(),
        ),
        sound(Sides { incoming: incoming@, existing: existing@ }, r@),
{
    let ghost s = Sides { incoming: incoming@, existing: existing@ };
    let mut sel: Table<String, Choice> = Table::new();
    let mut i: usize = 0;
    while i < incoming.ids.len()
        invariant
            i <= incoming.ids.len(),
            s == (Sides { incoming: incoming@, existing: existing@ }),
            allowed@.len() == incoming@.ids.len(),
            forall|id: Seq<char>| #[trigger] existing_by_id@.dom().contains(id) <==> existing@.has(id),
            forall|id: Seq<char>| #[trigger]
                existing_by_id@.dom().contains(id) ==> existing@.is_at(id, existing_by_id@[id] as int),
            sel@ == selected_incoming(s, root as int, allowed@, i as nat),
            sound(s, sel@),
        decreases incoming.ids.len() - i,
    {
        let id = &incoming.ids[i];
        assert(s.incoming.ids[i as int] == id@);
        if i == root || allowed[i] {
            sel.put(id.clone(), Choice { incoming: true, index: i });
        } else {
            match existing_by_id.get(id) {
                Some(at) => {
                    proof {
                        let c = last_at(s.existing, id@);
                        assert(s.existing.is_at(id@, *at as int));
                        lemma_is_at_once(s.existing, id@, c, *at as int);
                    }
                    sel.put(id.clone(), Choice { incoming: false, index: *at });
                },
                None => {},
            }
        }
        i += 1;
    }
    let mut k: usize = 0;
    while k < existing.ids.len()
        invariant
            k <= existing.ids.len(),
            s == (Sides { incoming: incoming@, existing: existing@ }),
            removable@.len() == existing@.ids.len(),
            forall|id: Seq<char>| #[trigger] incoming_by_id@.dom().contains(id) <==> incoming@.has(id),
            sel@ == selected(s, root as int, allowed@, removable@, k as nat),
            sound(s, sel@),
        decreases existing.ids.len() - k,
    {
        let id = &existing.ids[k];
        assert(s.existing.ids[k as int] == id@);
        if !incoming_by_id.contains(id) && !removable[k] {
            sel.put(id.clone(), Choice { incoming: false, index: k });
        }
        k += 1;
    }
    sel
}

fn choice_parent<'a>(incoming: &'a SideInstances, existing: &'a SideInstances, c: Choice) -> (r: Option<&'a String>)
    requires
        incoming@.wf(),
        existing@.wf(),
    ensures
        match r {
            Some(p) => (Sides { incoming: incoming@, existing: existing@ }).parent_id(c) == Some(p@),
            None => (Sides { incoming: incoming@, existing: existing@ }).parent_id(c) is None,
        },
{
    let side = if c.incoming {
        incoming
    } else {
        existing
    };
    if c.index < side.parents.len() {
        match side.parents[c.index] {
            Some(p) => {
                if p < side.ids.len() {
                    Some(&side.ids[p])
                } else {
                    None
                }
            },
            None => None,
        }
    } else {
        None
    }
}

/// All ids of both sides.
spec fn known_ids(s: Sides) -> Set<Seq<char>> {
    s.incoming.ids.to_set().union(s.existing.ids.to_set())
}

proof fn lemma_known_ids(s: Sides, sel: Map<Seq<char>, Choice>)
    requires
        sound(s, sel),
    ensures
        sel.dom().subset_of(known_ids(s)),
        known_ids(s).finite(),
        sel.dom().finite(),
        sel.dom().len() <= known_ids(s).len(),
{
    s.incoming.ids.lemma_cardinality_of_set();
    s.existing.ids.lemma_cardinality_of_set();
    assert forall|id: Seq<char>| #[trigger] sel.dom().contains(id) implies known_ids(s).contains(id) by {
        let c = sel[id];
        assert(s.chooses(id, c));
        assert(s.side(c.incoming).ids[c.index as int] == id);
        if c.incoming {
            assert(s.incoming.ids.contains(id));
        } else {
            assert(s.existing.ids.contains(id));
        }
    }
    vstd::set_lib::lemma_set_subset_finite(known_ids(s), sel.dom());
    vstd::set_lib::lemma_len_subset(sel.dom(), known_ids(s));
}

/// The choices whose parents have still to be looked at.
spec fn open_choice(s: Sides, sel: Map<Seq<char>, Choice>, pending: Seq<Choice>, id: Seq<char>) -> bool {
    pending.contains(sel[id]) || s.parent_id(sel[id]) is None || sel.dom().contains(s.parent_id(sel[id])->0)
}

/// Adds the parents of what is selected, and theirs, and so on.
fn add_parents(
    incoming: &SideInstances,
    existing: &SideInstances,
    incoming_by_id: &Table<String, usize>,
    existing_by_id: &Table<String, usize>,
    sel: &mut Table<String, Choice>,
)
    requires
        incoming@.wf(),
        existing@.wf(),
        forall|id: Seq<char>| #[trigger] existing_by_id@.dom().contains(id) <==> existing@.has(id),
        forall|id: Seq<char>| #[trigger]
            existing_by_id@.dom().contains(id) ==> existing@.is_at(id, existing_by_id@[id] as int),
        forall|id: Seq<char>| #[trigger] incoming_by_id@.dom().contains(id) <==> incoming@.has(id),
        forall|id: Seq<char>| #[trigger]
            incoming_by_id@.dom().contains(id) ==> incoming@.is_at(id, incoming_by_id@[id] as int),
        sound(Sides { incoming: incoming@, existing: existing@ }, old(sel)@),
    ensures
        sound(Sides { incoming: incoming@, existing: existing@ }, final(sel)@),
        closed_over_parents(Sides { incoming: incoming@, existing: existing@ }, old(sel)@, final(sel)@),
{
    let ghost s = Sides { incoming: incoming@, existing: existing@ };
    let ghost start = sel@;
    let keys = sel.keys();
    let mut pending: Vec<Choice> = Vec::new();
    let mut k: usize = 0;
    while k < keys.len()
        invariant
            k <= keys.len(),
            sel@ == start,
            forall|id: Seq<char>| #[trigger] key_views(keys@).contains(id) <==> start.dom().contains(id),
            forall|j: int| 0 <= j < k ==> pending@.contains(start[#[trigger] key_views(keys@)[j]]),
            forall|j: int| 0 <= j < pending@.len() ==> chosen_in(start, #[trigger] pending@[j]),
        decreases keys.len() - k,
    {
        let ghost before = pending@;
        assert(key_views(keys@)[k as int] == keys@[k as int]@);
        assert(key_views(keys@).contains(keys@[k as int]@));
        match sel.get(&keys[k]) {
            Some(c) => {
                pending.push(*c);
                assert(chosen_in(start, *c)) by {
                    assert(start.dom().contains(keys@[k as int]@) && start[keys@[k as int]@] == *c);
                }
                assert(pending@[before.len() as int] == *c);
                assert forall|x: Choice| before.contains(x) implies pending@.contains(x) by {
                    let j = choose|j: int| 0 <= j < before.len() && before[j] == x;
                    assert(pending@[j] == x);
                }
            },
            None => {},
        }
        k += 1;
    }
    assert forall|id: Seq<char>| #[trigger] sel@.dom().contains(id) implies open_choice(s, sel@, pending@, id) by {
        assert(key_views(keys@).contains(id));
        let j = choose|j: int| 0 <= j < key_views(keys@).len() && key_views(keys@)[j] == id;
        assert(pending@.contains(start[key_views(keys@)[j]]));
    }
    proof {
        lemma_known_ids(s, sel@);
        assert forall|id: Seq<char>| #[trigger] sel@.dom().contains(id) implies is_reached(s, start, sel@, id) by {
            assert(reached_in(s, start, sel@, id, 0));
        }
    }
    while pending.len() > 0
        invariant
            incoming@.wf(),
            existing@.wf(),
            s == (Sides { incoming: incoming@, existing: existing@ }),
            forall|id: Seq<char>| #[trigger] existing_by_id@.dom().contains(id) <==> existing@.has(id),
            forall|id: Seq<char>| #[trigger]
                existing_by_id@.dom().contains(id) ==> existing@.is_at(id, existing_by_id@[id] as int),
            forall|id: Seq<char>| #[trigger] incoming_by_id@.dom().contains(id) <==> incoming@.has(id),
            forall|id: Seq<char>| #[trigger]
                incoming_by_id@.dom().contains(id) ==> incoming@.is_at(id, incoming_by_id@[id] as int),
            sound(s, sel@),
            forall|id: Seq<char>| #[trigger]
                start.dom().contains(id) ==> sel@.dom().contains(id) && sel@[id] == start[id],
            forall|id: Seq<char>| #[trigger] sel@.dom().contains(id) ==> open_choice(s, sel@, pending@, id),
            forall|id: Seq<char>| #[trigger] sel@.dom().contains(id) ==> is_reached(s, start, sel@, id),
            forall|j: int| 0 <= j < pending@.len() ==> chosen_in(sel@, #[trigger] pending@[j]),
            sel@.dom().finite(),
            sel@.dom().len() <= known_ids(s).len(),
        decreases known_ids(s).len() - sel@.dom().len(), pending.len(),
    {
        let ghost waiting = pending@;
        let c = pending.pop().unwrap();
        let ghost old_sel = sel@;
        assert(chosen_in(old_sel, waiting[waiting.len() - 1]));
        let ghost child = choose|id: Seq<char>| #[trigger] old_sel.dom().contains(id) && old_sel[id] == c;
        proof {
            assert forall|x: Choice| waiting.contains(x) implies x == c || pending@.contains(x) by {
                let j = choose|j: int| 0 <= j < waiting.len() && waiting[j] == x;
                if j < waiting.len() - 1 {
                    assert(pending@[j] == x);
                }
            }
        }
        let parent = choice_parent(incoming, existing, c);
        let mut added: Option<Choice> = None;
        match parent {
            Some(parent_id) => {
                if !sel.contains(parent_id) {
                    let ghost side = s.side(c.incoming);
                    assert(side.has(parent_id@)) by {
                        let p = side.parents[c.index as int]->0;
                        assert(side.ids[p as int] == parent_id@);
                    }
                    let at = if c.incoming {
                        incoming_by_id.get(parent_id)
                    } else {
                        existing_by_id.get(parent_id)
                    };
                    match at {
                        Some(index) => {
                            let p = Choice { incoming: c.incoming, index: *index };
                            assert(side.is_at(parent_id@, *index as int));
                            sel.put(parent_id.clone(), p);
                            added = Some(p);
                            proof {
                                assert(sel@ == old_sel.insert(parent_id@, p));
                                assert(s.chooses(parent_id@, p));
                                assert(sound(s, sel@));
                                assert forall|id: Seq<char>| #[trigger] old_sel.dom().contains(id) implies is_reached(
                                    s,
                                    start,
                                    sel@,
                                    id,
                                ) by {
                                    assert(is_reached(s, start, old_sel, id));
                                    let steps = choose|steps: nat| #[trigger] reached_in(s, start, old_sel, id, steps);
                                    lemma_reached_grows(s, start, old_sel, sel@, id, steps);
                                }
                                assert(old_sel.dom().contains(child) && sel@[child] == c);
                                assert(is_reached(s, start, sel@, child));
                                let steps = choose|steps: nat| #[trigger] reached_in(s, start, sel@, child, steps);
                                assert(is_parent_choice(s, sel@, child, parent_id@));
                                assert(reached_in(s, start, sel@, parent_id@, steps + 1));
                                lemma_known_ids(s, sel@);
                            }
                        },
                        None => {
                            assert(false);
                        },
                    }
                }
            },
            None => {},
        }
        let ghost popped = pending@;
        match added {
            Some(p) => {
                pending.push(p);
            },
            None => {},
        }
        proof {
            assert forall|x: Choice| popped.contains(x) implies pending@.contains(x) by {
                let j = choose|j: int| 0 <= j < popped.len() && popped[j] == x;
                assert(pending@[j] == x);
            }
            if added is Some {
                assert(pending@[popped.len() as int] == added->0);
            }
            assert forall|id: Seq<char>| #[trigger] sel@.dom().contains(id) implies open_choice(s, sel@, pending@, id) by {
                if old_sel.dom().contains(id) {
                    assert(open_choice(s, old_sel, waiting, id));
                    assert(sel@[id] == old_sel[id]);
                }
            }
            assert forall|j: int| 0 <= j < pending@.len() implies chosen_in(sel@, #[trigger] pending@[j]) by {
                if j < popped.len() {
                    assert(waiting[j] == pending@[j]);
                    assert(chosen_in(old_sel, waiting[j]));
                    let id = choose|id: Seq<char>| #[trigger] old_sel.dom().contains(id) && old_sel[id] == pending@[j];
                    assert(sel@.dom().contains(id) && sel@[id] == pending@[j]);
                } else {
                    let id = parent->0@;
                    assert(sel@.dom().contains(id) && sel@[id] == pending@[j]);
                }
            }
        }
    }
    assert forall|id: Seq<char>| #[trigger] sel@.dom().contains(id) && s.parent_id(sel@[id]) is Some implies sel@.dom().contains(
        s.parent_id(sel@[id])->0,
    ) by {
        assert(open_choice(s, sel@, pending@, id));
    }
}

/// A choice stands in a selection.
spec fn chosen_in(sel: Map<Seq<char>, Choice>, c: Choice) -> bool {
    exists|id: Seq<char>| #[trigger] sel.dom().contains(id) && sel[id] == c
}

/// The first `n` instances of a side that are chosen, in order.
pub open spec fn chosen_of(s: Sides, sel: Map<Seq<char>, Choice>, incoming: bool, n: nat) -> Seq<Choice>
    decreases n,
{
    if n == 0 {
        Seq::empty()
    } else {
        let c = Choice { incoming, index: (n - 1) as usize };
        let before = chosen_of(s, sel, incoming, (n - 1) as nat);
        if value_of(sel, s.side(incoming).ids[n - 1]) == Some(c) {
            before.push(c)
        } else {
            before
        }
    }
}

/// What is chosen, incoming instances first, in the order of each side.
pub open spec fn in_order(s: Sides, sel: Map<Seq<char>, Choice>) -> Seq<Choice> {
    chosen_of(s, sel, true, s.incoming.ids.len()) + chosen_of(s, sel, false, s.existing.ids.len())
}

fn push_chosen(side: &SideInstances, incoming: bool, sel: &Table<String, Choice>, out: &mut Vec<Choice>, sides: Ghost<Sides>)
    requires
        sides@.side(incoming) == side@,
    ensures
        final(out)@ == old(out)@ + chosen_of(sides@, sel@, incoming, side@.ids.len()),
{
    let ghost s = sides@;
    let ghost start = out@;
    let mut i: usize = 0;
    assert(start =~= start + chosen_of(s, sel@, incoming, 0));
    while i < side.ids.len()
        invariant
            i <= side.ids.len(),
            s.side(incoming) == side@,
            out@ == start + chosen_of(s, sel@, incoming, i as nat),
        decreases side.ids.len() - i,
    {
        assert(side@.ids[i as int] == side.ids@[i as int]@);
        let c = Choice { incoming, index: i };
        let hit = match sel.get(&side.ids[i]) {
            Some(x) => *x == c,
            None => false,
        };
        if hit {
            out.push(c);
        }
        assert(out@ =~= start + chosen_of(s, sel@, incoming, (i + 1) as nat));
        i += 1;
    }
}

/// An instance of the merged service: where it comes from, its parent in the merged list, and the
/// instance of the project whose fields are merged into it.
#[derive(PartialEq, Eq, Structural, Clone, Copy, Debug)]
pub struct MergedInstance {
    pub choice: Choice,
    pub parent: Option<usize>,
    pub merge_with: Option<usize>,
}

/// The merged list so far, and where each id stands in it.
#[verifier::ext_equal]
pub struct MergeState {
    pub list: Seq<MergedInstance>,
    pub by_id: Map<Seq<char>, usize>,
}

/// The instance of the project that the fields of a choice are merged with.
pub open spec fn counterpart(s: Sides, c: Choice) -> Option<usize> {
    if c.incoming && s.existing.has(s.id(c)) {
        Some(last_at(s.existing, s.id(c)) as usize)
    } else {
        None
    }
}

/// A choice can be placed: it has no parent, or its parent stands in the list.
pub open spec fn placeable(s: Sides, m: MergeState, c: Choice) -> bool {
    s.parent_id(c) is None || m.by_id.dom().contains(s.parent_id(c)->0)
}

/// The list with one more choice.
pub open spec fn placed(s: Sides, m: MergeState, c: Choice) -> MergeState {
    MergeState {
        list: m.list.push(
            MergedInstance {
                choice: c,
                parent: match s.parent_id(c) {
                    Some(p) => Some(m.by_id[p]),
                    None => None,
                },
                merge_with: counterpart(s, c),
            },
        ),
        by_id: m.by_id.insert(s.id(c), m.list.len() as usize),
    }
}

/// One pass over the first `n` choices: those that can be placed are, the others wait.
pub open spec fn pass(s: Sides, m: MergeState, choices: Seq<Choice>, n: nat) -> (MergeState, Seq<Choice>)
    decreases n,
{
    if n == 0 {
        (m, Seq::empty())
    } else {
        let (before, waiting) = pass(s, m, choices, (n - 1) as nat);
        let c = choices[n - 1];
        if placeable(s, before, c) {
            (placed(s, before, c), waiting)
        } else {
            (before, waiting.push(c))
        }
    }
}

proof fn lemma_pass_lens(s: Sides, m: MergeState, choices: Seq<Choice>, n: nat)
    requires
        n <= choices.len(),
    ensures
        pass(s, m, choices, n).0.list.len() + pass(s, m, choices, n).1.len() == m.list.len() + n,
        pass(s, m, choices, n).0.list.len() >= m.list.len(),
    decreases n,
{
    if n > 0 {
        lemma_pass_lens(s, m, choices, (n - 1) as nat);
    }
}

/// Passes until nothing waits. Where a pass places nothing, parents run in a circle.
pub open spec fn merge_order(s: Sides, m: MergeState, choices: Seq<Choice>) -> Option<MergeState>
    decreases choices.len(),
{
    if choices.len() == 0 {
        Some(m)
    } else {
        let (after, waiting) = pass(s, m, choices, choices.len());
        if waiting.len() >= choices.len() {
            None
        } else {
            merge_order(s, after, waiting)
        }
    }
}

/// Every parent in the merged list comes before its children, and each place in the list is that of an
/// id.
pub open spec fn ordered(m: MergeState) -> bool {
    &&& forall|i: int| 0 <= i < m.list.len() && (#[trigger] m.list[i]).parent is Some ==> m.list[i].parent->0 < i
    &&& forall|id: Seq<char>| #[trigger] m.by_id.dom().contains(id) ==> m.by_id[id] < m.list.len()
}

proof fn lemma_pass_ordered(s: Sides, m: MergeState, choices: Seq<Choice>, n: nat)
    requires
        n <= choices.len(),
        ordered(m),
        m.list.len() + choices.len() <= usize::MAX,
    ensures
        ordered(pass(s, m, choices, n).0),
    decreases n,
{
    if n > 0 {
        lemma_pass_ordered(s, m, choices, (n - 1) as nat);
        lemma_pass_lens(s, m, choices, (n - 1) as nat);
    }
}

/// In the merged service every parent comes before its children.
pub proof fn law_merged_parents_come_first(s: Sides, m: MergeState, choices: Seq<Choice>)
    requires
        ordered(m),
        m.list.len() + choices.len() <= usize::MAX,
        merge_order(s, m, choices) is Some,
    ensures
        ordered(merge_order(s, m, choices)->0),
        merge_order(s, m, choices)->0.list.len() == m.list.len() + choices.len(),
    decreases choices.len(),
{
    if choices.len() > 0 {
        let (after, waiting) = pass(s, m, choices, choices.len());
        lemma_pass_ordered(s, m, choices, choices.len());
        lemma_pass_lens(s, m, choices, choices.len());
        law_merged_parents_come_first(s, after, waiting);
    }
}

/// What the filters say of both sides.
pub struct SyncbackFilter {
    /// For each incoming instance, whether it may come in.
    pub allowed: Vec<bool>,
    /// For each instance of the project, whether it may go where the snapshot does not have it.
    pub removable: Vec<bool>,
}

/// Why a snapshot can not be merged.
#[derive(PartialEq, Eq, Structural, Clone, Copy, Debug)]
pub enum SyncbackError {
    /// Parents run in a circle.
    CycleOrOrphan,
}

pub open spec fn no_merge() -> MergeState {
    MergeState { list: Seq::empty(), by_id: Map::empty() }
}

/// `r` is the merge of both sides: some selection, closed over parents, placed parents first.
pub open spec fn is_merge(
    s: Sides,
    root: int,
    allowed: Seq<bool>,
    removable: Seq<bool>,
    r: Result<Seq<MergedInstance>, SyncbackError>,
) -> bool {
    exists|sel: Map<Seq<char>, Choice>| #[trigger]
        closed_over_parents(s, selected(s, root, allowed, removable, s.existing.ids.len()), sel) && match merge_order(
            s,
            no_merge(),
            in_order(s, sel),
        ) {
            Some(m) => r == Ok::<Seq<MergedInstance>, SyncbackError>(m.list),
            None => r == Err::<Seq<MergedInstance>, SyncbackError>(SyncbackError::CycleOrOrphan),
        }
}

pub open spec fn merge_result(r: Result<Vec<MergedInstance>, SyncbackError>) -> Result<
    Seq<MergedInstance>,
    SyncbackError,
> {
    match r {
        Ok(v) => Ok(v@),
        Err(e) => Err(e),
    }
}

fn order_merge(
    incoming: &SideInstances,
    existing: &SideInstances,
    existing_by_id: &Table<String, usize>,
    initial: Vec<Choice>,
) -> (r: Result<Vec<MergedInstance>, SyncbackError>)
    requires
        incoming@.wf(),
        existing@.wf(),
        forall|i: int|
            0 <= i < initial@.len() ==> (#[trigger] initial@[i]).index < (Sides {
                incoming: incoming@,
                existing: existing@,
            }).side(initial@[i].incoming).ids.len(),
        forall|id: Seq<char>| #[trigger] existing_by_id@.dom().contains(id) <==> existing@.has(id),
        forall|id: Seq<char>| #[trigger]
            existing_by_id@.dom().contains(id) ==> existing@.is_at(id, existing_by_id@[id] as int),
    ensures
        match merge_order(Sides { incoming: incoming@, existing: existing@ }, no_merge(), initial@) {
            Some(m) => merge_result(r) == Ok::<Seq<MergedInstance>, SyncbackError>(m.list),
            None => merge_result(r) == Err::<Seq<MergedInstance>, SyncbackError>(SyncbackError::CycleOrOrphan),
        },
{
    let ghost s = Sides { incoming: incoming@, existing: existing@ };
    let ghost all = initial@;
    let mut choices = initial;
    let mut list: Vec<MergedInstance> = Vec::new();
    let mut by_id: Table<String, usize> = Table::new();
    assert((MergeState { list: list@, by_id: by_id@ }) =~= no_merge());
    while choices.len() > 0
        invariant
            incoming@.wf(),
            existing@.wf(),
            s == (Sides { incoming: incoming@, existing: existing@ }),
            forall|id: Seq<char>| #[trigger] existing_by_id@.dom().contains(id) <==> existing@.has(id),
            forall|id: Seq<char>| #[trigger]
                existing_by_id@.dom().contains(id) ==> existing@.is_at(id, existing_by_id@[id] as int),
            forall|i: int|
                0 <= i < choices@.len() ==> (#[trigger] choices@[i]).index < s.side(choices@[i].incoming).ids.len(),
            all == initial@,
            merge_order(s, MergeState { list: list@, by_id: by_id@ }, choices@) == merge_order(s, no_merge(), all),
        decreases choices.len(),
    {
        let ghost m = MergeState { list: list@, by_id: by_id@ };
        let mut waiting: Vec<Choice> = Vec::new();
        let mut i: usize = 0;
        while i < choices.len()
            invariant
                i <= choices.len(),
                incoming@.wf(),
                existing@.wf(),
                s == (Sides { incoming: incoming@, existing: existing@ }),
                forall|id: Seq<char>| #[trigger] existing_by_id@.dom().contains(id) <==> existing@.has(id),
                forall|id: Seq<char>| #[trigger]
                    existing_by_id@.dom().contains(id) ==> existing@.is_at(id, existing_by_id@[id] as int),
                forall|k: int|
                    0 <= k < choices@.len() ==> (#[trigger] choices@[k]).index < s.side(choices@[k].incoming).ids.len(),
                forall|k: int|
                    0 <= k < waiting@.len() ==> (#[trigger] waiting@[k]).index < s.side(waiting@[k].incoming).ids.len(),
                pass(s, m, choices@, i as nat) == (MergeState { list: list@, by_id: by_id@ }, waiting@),
            decreases choices.len() - i,
        {
            let c = choices[i];
            let ghost now = MergeState { list: list@, by_id: by_id@ };
            let (fits, parent): (bool, Option<usize>) = match choice_parent(incoming, existing, c) {
                None => (true, None),
                Some(p) => match by_id.get(p) {
                    Some(at) => (true, Some(*at)),
                    None => (false, None),
                },
            };
            if fits {
                let id = if c.incoming {
                    incoming.ids[c.index].clone()
                } else {
                    existing.ids[c.index].clone()
                };
                assert(id@ == s.id(c));
                let merge_with: Option<usize> = if c.incoming {
                    match existing_by_id.get(&id) {
                        Some(at) => {
                            proof {
                                lemma_is_at_once(s.existing, id@, *at as int, last_at(s.existing, id@));
                            }
                            Some(*at)
                        },
                        None => None,
                    }
                } else {
                    None
                };
                assert(merge_with == counterpart(s, c));
                let at = list.len();
                list.push(MergedInstance { choice: c, parent, merge_with });
                by_id.put(id, at);
                assert((MergeState { list: list@, by_id: by_id@ }) =~= placed(s, now, c));
            } else {
                waiting.push(c);
            }
            i += 1;
        }
        if waiting.len() == choices.len() {
            return Err(SyncbackError::CycleOrOrphan);
        }
        proof {
            lemma_pass_lens(s, m, choices@, choices@.len());
        }
        choices = waiting;
    }
    Ok(list)
}

proof fn lemma_chosen_in_range(s: Sides, sel: Map<Seq<char>, Choice>, incoming: bool, n: nat, k: int)
    requires
        n <= s.side(incoming).ids.len(),
        n <= usize::MAX,
        0 <= k < chosen_of(s, sel, incoming, n).len(),
    ensures
        chosen_of(s, sel, incoming, n)[k].incoming == incoming,
        chosen_of(s, sel, incoming, n)[k].index < n,
    decreases n,
{
    if n > 0 && k < chosen_of(s, sel, incoming, (n - 1) as nat).len() {
        lemma_chosen_in_range(s, sel, incoming, (n - 1) as nat, k);
    }
}

/// Merges a snapshot with what the project holds. An incoming instance comes in where the filters allow
/// it; where they do not, what the project holds stays. What only the project holds stays where the
/// filters do not allow it to go. Everything that stays has its parents, and parents come first.
pub fn merge_filtered_syncback_state(
    incoming: &SideInstances,
    existing: &SideInstances,
    root: usize,
    filter: &SyncbackFilter,
) -> (r: Result<Vec<MergedInstance>, SyncbackError>)
    requires
        incoming@.wf(),
        existing@.wf(),
        filter.allowed@.len() == incoming@.ids.len(),
        filter.removable@.len() == existing@.ids.len(),
    ensures
        is_merge(
            Sides { incoming: incoming@, existing: existing@ },
            root as int,
            filter.allowed@,
            filter.removable@,
            merge_result(r),
        ),
{
    let ghost s = Sides { incoming: incoming@, existing: existing@ };
    let incoming_by_id = index_by_id(incoming);
    let existing_by_id = index_by_id(existing);
    let mut sel = select_initial(
        incoming,
        existing,
        &existing_by_id,
        &incoming_by_id,
        root,
        &filter.allowed,
        &filter.removable,
    );
    add_parents(incoming, existing, &incoming_by_id, &existing_by_id, &mut sel);
    let mut choices: Vec<Choice> = Vec::new();
    push_chosen(incoming, true, &sel, &mut choices, Ghost(s));
    push_chosen(existing, false, &sel, &mut choices, Ghost(s));
    assert(choices@ =~= in_order(s, sel@));
    let ghost first = chosen_of(s, sel@, true, s.incoming.ids.len());
    assert(s.incoming.ids.len() == incoming.ids.len() && s.existing.ids.len() == existing.ids.len());
    assert forall|i: int| 0 <= i < choices@.len() implies (#[trigger] choices@[i]).index < s.side(
        choices@[i].incoming,
    ).ids.len() by {
        if i < first.len() {
            lemma_chosen_in_range(s, sel@, true, s.incoming.ids.len(), i);
        } else {
            lemma_chosen_in_range(s, sel@, false, s.existing.ids.len(), i - first.len());
        }
    }
    order_merge(incoming, existing, &existing_by_id, choices)
}

} // verus!
