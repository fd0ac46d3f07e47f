//! What a merged service holds, and of which side.
use vstd::prelude::*;

use crate::link_apply::value_of;
use crate::syncback::{
    chosen_of, closed_over_parents, counterpart, in_order, is_merge, is_parent_choice, is_reached, last_at,
    law_merged_parents_come_first, merge_order, no_merge, pass, placeable, placed, reached_in, selected,
    selected_incoming, Choice, MergeState, MergedInstance, SideModel, Sides, SyncbackError,
};

verus! {

/// An instance of a merged list has a child in it that was taken from the same side.
pub open spec fn is_needed(list: Seq<MergedInstance>, p: int) -> bool {
    exists|q: int|
        0 <= q < list.len() && (#[trigger] list[q]).parent == Some(p as usize) && list[q].choice.incoming
            == list[p].choice.incoming
}

/// A merged list holds an instance of one side.
pub open spec fn holds(list: Seq<MergedInstance>, incoming: bool, index: int) -> bool {
    exists|p: int|
        0 <= p < list.len() && (#[trigger] list[p]).choice.incoming == incoming && list[p].choice.index == index
}

/// No other instance of a side has the id of one.
pub open spec fn alone_with_its_id(side: SideModel, i: int) -> bool {
    forall|j: int| 0 <= j < side.ids.len() && #[trigger] side.ids[j] == side.ids[i] ==> j == i
}

/// The snapshot has an instance with an id that the filters do not let in, and that is not the root.
pub open spec fn is_kept_out(s: Sides, root: int, allowed: Seq<bool>, id: Seq<char>) -> bool {
    exists|i: int| 0 <= i < s.incoming.ids.len() && #[trigger] s.incoming.ids[i] == id && i != root && !allowed[i]
}

/// The snapshot has an instance with an id that the filters let in, or that is the root.
pub open spec fn is_let_in(s: Sides, root: int, allowed: Seq<bool>, id: Seq<char>) -> bool {
    exists|i: int| 0 <= i < s.incoming.ids.len() && #[trigger] s.incoming.ids[i] == id && (i == root || allowed[i])
}

proof fn lemma_selected_incoming(s: Sides, root: int, allowed: Seq<bool>, n: nat, id: Seq<char>)
    requires
        n <= s.incoming.ids.len(),
        s.incoming.ids.len() <= usize::MAX,
        s.existing.ids.len() <= usize::MAX,
        allowed.len() == s.incoming.ids.len(),
    ensures
        ({
            let sel = selected_incoming(s, root, allowed, n);
            &&& sel.dom().contains(id) ==> {
                let c = sel[id];
                if c.incoming {
                    c.index < n && s.incoming.ids[c.index as int] == id && (c.index == root || allowed[c.index as int])
                } else {
                    s.existing.is_at(id, c.index as int) && is_kept_out(s, root, allowed, id)
                }
            }
            &&& forall|i: int|
                0 <= i < n && #[trigger] s.incoming.ids[i] == id && (i == root || allowed[i]) ==> sel.dom().contains(id)
            &&& forall|i: int|
                0 <= i < n && #[trigger] s.incoming.ids[i] == id && s.existing.has(id) ==> sel.dom().contains(id)
            &&& (forall|i: int| 0 <= i < n && #[trigger] s.incoming.ids[i] == id ==> i != root && !allowed[i]) && sel.dom().contains(
                id,
            ) ==> !sel[id].incoming
        }),
    decreases n,
{
    if n > 0 {
        lemma_selected_incoming(s, root, allowed, (n - 1) as nat, id);
        let here = s.incoming.ids[n - 1];
        if here == id && n - 1 != root && !allowed[n - 1] && s.existing.has(id) {
            lemma_last_at(s.existing, id);
            assert(is_kept_out(s, root, allowed, id)) by {
                assert(s.incoming.ids[n - 1] == id);
            }
        }
    }
}

proof fn lemma_last_at(side: SideModel, id: Seq<char>)
    requires
        side.has(id),
    ensures
        side.is_at(id, last_at(side, id)),
{
    let k = lemma_last_found(side, id, side.ids.len());
    assert(side.is_at(id, k));
}

proof fn lemma_last_found(side: SideModel, id: Seq<char>, n: nat) -> (k: int)
    requires
        n <= side.ids.len(),
        side.ids.contains(id),
        forall|j: int| n <= j < side.ids.len() ==> #[trigger] side.ids[j] != id,
    ensures
        side.is_at(id, k),
    decreases n,
{
    let at = choose|at: int| 0 <= at < side.ids.len() && side.ids[at] == id;
    if side.ids[n - 1] == id {
        n - 1
    } else {
        lemma_last_found(side, id, (n - 1) as nat)
    }
}

proof fn lemma_selected(s: Sides, root: int, allowed: Seq<bool>, removable: Seq<bool>, n: nat, id: Seq<char>)
    requires
        n <= s.existing.ids.len(),
        s.incoming.ids.len() <= usize::MAX,
        s.existing.ids.len() <= usize::MAX,
        allowed.len() == s.incoming.ids.len(),
        removable.len() == s.existing.ids.len(),
    ensures
        ({
            let sel = selected(s, root, allowed, removable, n);
            let first = selected_incoming(s, root, allowed, s.incoming.ids.len());
            &&& s.incoming.has(id) ==> value_of(sel, id) == value_of(first, id)
            &&& !s.incoming.has(id) && sel.dom().contains(id) ==> {
                let c = sel[id];
                !c.incoming && c.index < n && s.existing.ids[c.index as int] == id && !removable[c.index as int]
            }
            &&& !s.incoming.has(id) ==> forall|k: int|
                0 <= k < n && #[trigger] s.existing.ids[k] == id && !removable[k] ==> sel.dom().contains(id)
        }),
    decreases n,
{
    if n > 0 {
        lemma_selected(s, root, allowed, removable, (n - 1) as nat, id);
    } else {
        lemma_selected_incoming(s, root, allowed, s.incoming.ids.len(), id);
        let first = selected_incoming(s, root, allowed, s.incoming.ids.len());
        if !s.incoming.has(id) && first.dom().contains(id) {
            let c = first[id];
            if c.incoming {
                assert(s.incoming.ids[c.index as int] == id);
            } else {
                let i = choose|i: int|
                    0 <= i < s.incoming.ids.len() && #[trigger] s.incoming.ids[i] == id && i != root && !allowed[i];
                assert(s.incoming.ids[i] == id);
            }
        }
    }
}

proof fn lemma_chosen(s: Sides, sel: Map<Seq<char>, Choice>, incoming: bool, n: nat, c: Choice)
    requires
        n <= s.side(incoming).ids.len(),
        n <= usize::MAX,
    ensures
        chosen_of(s, sel, incoming, n).contains(c) <==> c.incoming == incoming && c.index < n && value_of(sel, s.id(c)) == Some(c),
        chosen_of(s, sel, incoming, n).no_duplicates(),
    decreases n,
{
    if n > 0 {
        lemma_chosen(s, sel, incoming, (n - 1) as nat, c);
        let last = Choice { incoming, index: (n - 1) as usize };
        lemma_chosen(s, sel, incoming, (n - 1) as nat, last);
        let before = chosen_of(s, sel, incoming, (n - 1) as nat);
        assert(!before.contains(last));
        if value_of(sel, s.side(incoming).ids[n - 1]) == Some(last) {
            let after = before.push(last);
            assert(after[before.len() as int] == last);
            assert(before.contains(c) ==> after.contains(c)) by {
                if before.contains(c) {
                    let j = choose|j: int| 0 <= j < before.len() && before[j] == c;
                    assert(after[j] == c);
                }
            }
            assert(after.contains(c) ==> before.contains(c) || c == last) by {
                if after.contains(c) {
                    let j = choose|j: int| 0 <= j < after.len() && after[j] == c;
                    if j < before.len() {
                        assert(before[j] == c);
                    }
                }
            }
        }
    }
}

proof fn lemma_in_order(s: Sides, sel: Map<Seq<char>, Choice>, c: Choice)
    requires
        s.incoming.ids.len() <= usize::MAX,
        s.existing.ids.len() <= usize::MAX,
    ensures
        in_order(s, sel).contains(c) <==> c.index < s.side(c.incoming).ids.len() && value_of(sel, s.id(c)) == Some(c),
        in_order(s, sel).no_duplicates(),
{
    let a = chosen_of(s, sel, true, s.incoming.ids.len());
    let b = chosen_of(s, sel, false, s.existing.ids.len());
    lemma_chosen(s, sel, true, s.incoming.ids.len(), c);
    lemma_chosen(s, sel, false, s.existing.ids.len(), c);
    let all = a + b;
    assert(all.contains(c) <==> a.contains(c) || b.contains(c)) by {
        if a.contains(c) {
            let j = choose|j: int| 0 <= j < a.len() && a[j] == c;
            assert(all[j] == c);
        }
        if b.contains(c) {
            let j = choose|j: int| 0 <= j < b.len() && b[j] == c;
            assert(all[a.len() + j] == c);
        }
        if all.contains(c) {
            let j = choose|j: int| 0 <= j < all.len() && all[j] == c;
            if j < a.len() {
                assert(a[j] == c);
            } else {
                assert(b[j - a.len()] == c);
            }
        }
    }
    assert forall|i: int, j: int| 0 <= i < j < all.len() implies all[i] != all[j] by {
        if i < a.len() && j >= a.len() {
            lemma_chosen(s, sel, true, s.incoming.ids.len(), all[i]);
            lemma_chosen(s, sel, false, s.existing.ids.len(), all[j]);
            assert(a.contains(a[i]));
            assert(b.contains(b[j - a.len()]));
        } else if i >= a.len() {
            assert(b[i - a.len()] != b[j - a.len()]);
        }
    }
}

spec fn choices_of(list: Seq<MergedInstance>) -> Seq<Choice> {
    Seq::new(list.len(), |i: int| list[i].choice)
}

/// Every instance of a list stands under its parent, and is known by its id.
spec fn well_placed(s: Sides, m: MergeState) -> bool {
    &&& m.list.len() <= usize::MAX
    &&& forall|i: int|
        0 <= i < m.list.len() ==> (#[trigger] m.list[i]).merge_with == counterpart(s, m.list[i].choice) && match s.parent_id(
            m.list[i].choice,
        ) {
            None => m.list[i].parent is None,
            Some(p) => m.list[i].parent is Some && m.list[i].parent->0 < m.list.len() && s.id(
                m.list[m.list[i].parent->0 as int].choice,
            ) == p,
        }
    &&& forall|id: Seq<char>| #[trigger]
        m.by_id.dom().contains(id) ==> m.by_id[id] < m.list.len() && s.id(m.list[m.by_id[id] as int].choice) == id
}

proof fn lemma_placed(s: Sides, m: MergeState, c: Choice)
    requires
        m.list.len() < usize::MAX,
        well_placed(s, m),
        placeable(s, m, c),
    ensures
        well_placed(s, placed(s, m, c)),
{
    let after = placed(s, m, c);
    assert(after.list.len() == m.list.len() + 1);
    assert forall|i: int| 0 <= i < after.list.len() implies (#[trigger] after.list[i]).merge_with == counterpart(
        s,
        after.list[i].choice,
    ) && match s.parent_id(after.list[i].choice) {
        None => after.list[i].parent is None,
        Some(p) => after.list[i].parent is Some && after.list[i].parent->0 < after.list.len() && s.id(
            after.list[after.list[i].parent->0 as int].choice,
        ) == p,
    } by {
        if i < m.list.len() {
            assert(after.list[i] == m.list[i]);
        } else if s.parent_id(c) is Some {
            let p = s.parent_id(c)->0;
            assert(m.by_id.dom().contains(p));
            assert(after.list[m.by_id[p] as int] == m.list[m.by_id[p] as int]);
        }
    }
    assert forall|id: Seq<char>| #[trigger] after.by_id.dom().contains(id) implies after.by_id[id] < after.list.len() && s.id(
        after.list[after.by_id[id] as int].choice,
    ) == id by {
        if id != s.id(c) {
            assert(m.by_id.dom().contains(id));
            assert(after.list[m.by_id[id] as int] == m.list[m.by_id[id] as int]);
        }
    }
}

proof fn lemma_pass(s: Sides, m: MergeState, choices: Seq<Choice>, n: nat)
    requires
        n <= choices.len(),
        m.list.len() + choices.len() <= usize::MAX,
        well_placed(s, m),
    ensures
        well_placed(s, pass(s, m, choices, n).0),
        pass(s, m, choices, n).0.list.len() + pass(s, m, choices, n).1.len() == m.list.len() + n,
        pass(s, m, choices, n).1.len() <= n,
    decreases n,
{
    if n > 0 {
        lemma_pass(s, m, choices, (n - 1) as nat);
        let (before, waiting) = pass(s, m, choices, (n - 1) as nat);
        let c = choices[n - 1];
        if placeable(s, before, c) {
            lemma_placed(s, before, c);
        }
    }
}

proof fn lemma_pass_waits(s: Sides, m: MergeState, choices: Seq<Choice>, n: nat)
    requires
        n <= choices.len(),
    ensures
        forall|id: Seq<char>| #[trigger]
            m.by_id.dom().contains(id) ==> pass(s, m, choices, n).0.by_id.dom().contains(id),
        forall|i: int|
            0 <= i < n ==> pass(s, m, choices, n).1.contains(#[trigger] choices[i]) || pass(s, m, choices, n).0.by_id.dom().contains(
                s.id(choices[i]),
            ),
        forall|i: int| 0 <= i < pass(s, m, choices, n).1.len() ==> choices.contains(#[trigger] pass(s, m, choices, n).1[i]),
    decreases n,
{
    if n > 0 {
        lemma_pass_waits(s, m, choices, (n - 1) as nat);
        let (before, waiting) = pass(s, m, choices, (n - 1) as nat);
        let c = choices[n - 1];
        let (after, later) = pass(s, m, choices, n);
        if !placeable(s, before, c) {
            assert(later[waiting.len() as int] == c);
            assert(choices.contains(c));
            assert forall|x: Choice| #[trigger] waiting.contains(x) implies later.contains(x) by {
                let j = choose|j: int| 0 <= j < waiting.len() && waiting[j] == x;
                assert(later[j] == x);
            }
            assert forall|i: int| 0 <= i < later.len() implies choices.contains(#[trigger] later[i]) by {
                if i < waiting.len() {
                    assert(later[i] == waiting[i]);
                }
            }
        }
    }
}

proof fn lemma_pass_stuck(s: Sides, m: MergeState, choices: Seq<Choice>, n: nat)
    requires
        n <= choices.len(),
    ensures
        pass(s, m, choices, n).1.len() <= n,
        pass(s, m, choices, n).1.len() == n ==> pass(s, m, choices, n).0 == m && forall|i: int|
            0 <= i < n ==> !placeable(s, m, #[trigger] choices[i]),
    decreases n,
{
    if n > 0 {
        lemma_pass_stuck(s, m, choices, (n - 1) as nat);
    }
}

/// A pass drops no choice and takes none twice.
proof fn lemma_pass_keeps(s: Sides, m: MergeState, choices: Seq<Choice>, n: nat)
    requires
        n <= choices.len(),
    ensures
        choices_of(pass(s, m, choices, n).0.list).to_multiset().add(pass(s, m, choices, n).1.to_multiset()) =~= choices_of(
            m.list,
        ).to_multiset().add(choices.take(n as int).to_multiset()),
    decreases n,
{
    broadcast use vstd::seq_lib::group_to_multiset_ensures;

    if n > 0 {
        lemma_pass_keeps(s, m, choices, (n - 1) as nat);
        let (before, waiting) = pass(s, m, choices, (n - 1) as nat);
        let c = choices[n - 1];
        assert(choices.take(n as int) =~= choices.take(n - 1).push(c));
        let a = choices_of(before.list).to_multiset();
        let b = waiting.to_multiset();
        assert(choices.take(n as int).to_multiset() =~= choices.take(n - 1).to_multiset().insert(c));
        if placeable(s, before, c) {
            assert(choices_of(placed(s, before, c).list) =~= choices_of(before.list).push(c));
            assert(a.insert(c).add(b) =~= a.add(b).insert(c));
        } else {
            assert(waiting.push(c).to_multiset() =~= b.insert(c));
            assert(a.add(b.insert(c)) =~= a.add(b).insert(c));
        }
        let x = choices_of(m.list).to_multiset();
        let y = choices.take(n - 1).to_multiset();
        assert(x.add(y.insert(c)) =~= x.add(y).insert(c));
    } else {
        assert(choices.take(0) =~= Seq::empty());
    }
}

proof fn lemma_merge_keeps(s: Sides, m: MergeState, choices: Seq<Choice>)
    requires
        merge_order(s, m, choices) is Some,
    ensures
        choices_of(merge_order(s, m, choices)->0.list).to_multiset() =~= choices_of(m.list).to_multiset().add(
            choices.to_multiset(),
        ),
    decreases choices.len(),
{
    broadcast use vstd::seq_lib::group_to_multiset_ensures;

    if choices.len() > 0 {
        lemma_pass_keeps(s, m, choices, choices.len());
        let (after, waiting) = pass(s, m, choices, choices.len());
        assert(choices.take(choices.len() as int) =~= choices);
        lemma_merge_keeps(s, after, waiting);
    } else {
        assert(choices =~= Seq::empty());
    }
}

proof fn lemma_merge(s: Sides, m: MergeState, choices: Seq<Choice>)
    requires
        m.list.len() + choices.len() <= usize::MAX,
        well_placed(s, m),
        merge_order(s, m, choices) is Some,
    ensures
        well_placed(s, merge_order(s, m, choices)->0),
    decreases choices.len(),
{
    if choices.len() > 0 {
        lemma_pass(s, m, choices, choices.len());
        let (after, waiting) = pass(s, m, choices, choices.len());
        lemma_merge(s, after, waiting);
    }
}

proof fn lemma_sound(s: Sides, root: int, allowed: Seq<bool>, removable: Seq<bool>, sel: Map<Seq<char>, Choice>, id: Seq<char>)
    requires
        s.incoming.ids.len() <= usize::MAX,
        s.existing.ids.len() <= usize::MAX,
        allowed.len() == s.incoming.ids.len(),
        removable.len() == s.existing.ids.len(),
        closed_over_parents(s, selected(s, root, allowed, removable, s.existing.ids.len()), sel),
        sel.dom().contains(id),
    ensures
        s.chooses(id, sel[id]),
        in_order(s, sel).contains(sel[id]),
        ({
            let before = selected(s, root, allowed, removable, s.existing.ids.len());
            before.dom().contains(id) || exists|child: Seq<char>| #[trigger] is_parent_choice(s, sel, child, id)
        }),
{
    let before = selected(s, root, allowed, removable, s.existing.ids.len());
    assert(is_reached(s, before, sel, id));
    let steps = choose|steps: nat| #[trigger] reached_in(s, before, sel, id, steps);
    if steps == 0 {
        lemma_selected(s, root, allowed, removable, s.existing.ids.len(), id);
        lemma_selected_incoming(s, root, allowed, s.incoming.ids.len(), id);
        assert(sel[id] == before[id]);
        assert(value_of(before, id) == Some(sel[id]));
    } else {
        let child = choose|child: Seq<char>| #[trigger]
            is_parent_choice(s, sel, child, id) && reached_in(s, before, sel, child, (steps - 1) as nat);
        assert(is_parent_choice(s, sel, child, id));
    }
    lemma_in_order(s, sel, sel[id]);
}

/// The sides as a snapshot and a document give them: one parent for each id, and an answer of the filters for
/// each instance.
pub open spec fn fits(s: Sides, allowed: Seq<bool>, removable: Seq<bool>) -> bool {
    &&& s.incoming.wf()
    &&& s.existing.wf()
    &&& allowed.len() == s.incoming.ids.len()
    &&& removable.len() == s.existing.ids.len()
    &&& s.incoming.ids.len() + s.existing.ids.len() <= usize::MAX
}

proof fn lemma_chosen_len(s: Sides, sel: Map<Seq<char>, Choice>, incoming: bool, n: nat)
    ensures
        chosen_of(s, sel, incoming, n).len() <= n,
    decreases n,
{
    if n > 0 {
        lemma_chosen_len(s, sel, incoming, (n - 1) as nat);
    }
}

/// The selection behind a merge, and what it has to do with the merged list: the list holds exactly the
/// choices of the selection, each once, under their parents.
proof fn lemma_merged(s: Sides, root: int, allowed: Seq<bool>, removable: Seq<bool>, list: Seq<MergedInstance>) -> (sel: Map<
    Seq<char>,
    Choice,
>)
    requires
        fits(s, allowed, removable),
        is_merge(s, root, allowed, removable, Ok(list)),
    ensures
        closed_over_parents(s, selected(s, root, allowed, removable, s.existing.ids.len()), sel),
        list.len() <= usize::MAX,
        forall|p: int|
            0 <= p < list.len() ==> (#[trigger] list[p]).choice.index < s.side(list[p].choice.incoming).ids.len() && value_of(
                sel,
                s.id(list[p].choice),
            ) == Some(list[p].choice),
        forall|id: Seq<char>| #[trigger] sel.dom().contains(id) ==> holds(list, sel[id].incoming, sel[id].index as int),
        forall|p: int, q: int|
            0 <= p < q < list.len() ==> s.id((#[trigger] list[p]).choice) != s.id((#[trigger] list[q]).choice),
        forall|p: int|
            0 <= p < list.len() ==> (#[trigger] list[p]).merge_with == counterpart(s, list[p].choice) && match s.parent_id(
                list[p].choice,
            ) {
                None => list[p].parent is None,
                Some(id) => list[p].parent is Some && list[p].parent->0 < p && s.id(list[list[p].parent->0 as int].choice)
                    == id,
            },
{
    let before = selected(s, root, allowed, removable, s.existing.ids.len());
    let sel = choose|sel: Map<Seq<char>, Choice>| #[trigger]
        closed_over_parents(s, before, sel) && match merge_order(s, no_merge(), in_order(s, sel)) {
            Some(m) => Ok::<Seq<MergedInstance>, SyncbackError>(list) == Ok::<Seq<MergedInstance>, SyncbackError>(m.list),
            None => Ok::<Seq<MergedInstance>, SyncbackError>(list) == Err::<Seq<MergedInstance>, SyncbackError>(
                SyncbackError::CycleOrOrphan,
            ),
        };
    let choices = in_order(s, sel);
    lemma_chosen_len(s, sel, true, s.incoming.ids.len());
    lemma_chosen_len(s, sel, false, s.existing.ids.len());
    let m = merge_order(s, no_merge(), choices)->0;
    assert(well_placed(s, no_merge()));
    lemma_merge(s, no_merge(), choices);
    lemma_merge_keeps(s, no_merge(), choices);
    law_merged_parents_come_first(s, no_merge(), choices);
    let found = choices_of(list);
    assert(choices_of(no_merge().list) =~= Seq::empty());
    assert(found.to_multiset() =~= choices.to_multiset()) by {
        broadcast use vstd::seq_lib::group_to_multiset_ensures;

    }
    assert forall|c: Choice| #[trigger] found.contains(c) <==> choices.contains(c) by {
        broadcast use vstd::seq_lib::group_to_multiset_ensures;

        assert(found.contains(c) <==> found.to_multiset().count(c) > 0);
        assert(choices.contains(c) <==> choices.to_multiset().count(c) > 0);
    }
    lemma_in_order(s, sel, Choice { incoming: true, index: 0 });
    choices.lemma_multiset_has_no_duplicates();
    found.lemma_multiset_has_no_duplicates_conv();
    assert forall|p: int| 0 <= p < list.len() implies (#[trigger] list[p]).choice.index < s.side(
        list[p].choice.incoming,
    ).ids.len() && value_of(sel, s.id(list[p].choice)) == Some(list[p].choice) by {
        assert(found[p] == list[p].choice);
        assert(found.contains(list[p].choice));
        lemma_in_order(s, sel, list[p].choice);
    }
    assert forall|id: Seq<char>| #[trigger] sel.dom().contains(id) implies holds(list, sel[id].incoming, sel[id].index as int) by {
        lemma_sound(s, root, allowed, removable, sel, id);
        assert(found.contains(sel[id]));
        let p = choose|p: int| 0 <= p < found.len() && found[p] == sel[id];
        assert(list[p].choice == sel[id]);
    }
    assert forall|p: int, q: int| 0 <= p < q < list.len() implies s.id((#[trigger] list[p]).choice) != s.id(
        (#[trigger] list[q]).choice,
    ) by {
        assert(found[p] != found[q]);
    }
    sel
}

/// The filters decide what is taken from the snapshot and what stays. An instance of the snapshot that they do
/// not let in is not taken, unless it is the root or has a child in the merged service that is taken; where
/// the project holds one with its id, that one stays. An instance that they let in is taken. What only the
/// project holds stays where the filters do not let it go, and of what they let go only that stays which a
/// child of the project needs.
pub proof fn law_filters_decide_the_merge(
    s: Sides,
    root: int,
    allowed: Seq<bool>,
    removable: Seq<bool>,
    list: Seq<MergedInstance>,
)
    requires
        fits(s, allowed, removable),
        is_merge(s, root, allowed, removable, Ok(list)),
    ensures
        forall|p: int|
            0 <= p < list.len() && (#[trigger] list[p]).choice.incoming && list[p].choice.index != root
                && !allowed[list[p].choice.index as int] ==> is_needed(list, p),
        forall|i: int, k: int|
            0 <= i < s.incoming.ids.len() && i != root && !allowed[i] && !is_let_in(s, root, allowed, s.incoming.ids[i])
                && #[trigger] s.existing.is_at(#[trigger] s.incoming.ids[i], k) ==> holds(list, false, k),
        forall|i: int|
            0 <= i < s.incoming.ids.len() && (i == root || allowed[i]) && #[trigger] alone_with_its_id(s.incoming, i) ==> holds(
                list,
                true,
                i,
            ),
        forall|k: int|
            0 <= k < s.existing.ids.len() && !s.incoming.has(s.existing.ids[k]) && !(#[trigger] removable[k])
                && alone_with_its_id(s.existing, k) ==> holds(list, false, k),
        forall|p: int|
            0 <= p < list.len() && !(#[trigger] list[p]).choice.incoming ==> {
                let id = s.existing.ids[list[p].choice.index as int];
                ||| is_kept_out(s, root, allowed, id)
                ||| !s.incoming.has(id) && !removable[list[p].choice.index as int]
                ||| is_needed(list, p)
            },
{
    let sel = lemma_merged(s, root, allowed, removable, list);
    let before = selected(s, root, allowed, removable, s.existing.ids.len());
    assert forall|p: int| 0 <= p < list.len() && !before.dom().contains(s.id((#[trigger] list[p]).choice)) implies is_needed(
        list,
        p,
    ) by {
        let id = s.id(list[p].choice);
        lemma_sound(s, root, allowed, removable, sel, id);
        let child = choose|child: Seq<char>| #[trigger] is_parent_choice(s, sel, child, id);
        assert(sel.dom().contains(child));
        lemma_sound(s, root, allowed, removable, sel, child);
        assert(holds(list, sel[child].incoming, sel[child].index as int));
        let q = choose|q: int|
            0 <= q < list.len() && (#[trigger] list[q]).choice.incoming == sel[child].incoming && list[q].choice.index
                == sel[child].index as int;
        assert(list[q].choice == sel[child]);
        let at = list[q].parent->0 as int;
        assert(s.id(list[at].choice) == id);
        if at < p {
            assert(s.id(list[at].choice) != s.id(list[p].choice));
        } else if p < at {
            assert(s.id(list[p].choice) != s.id(list[at].choice));
        }
    }
    assert forall|p: int|
        0 <= p < list.len() && (#[trigger] list[p]).choice.incoming && list[p].choice.index != root
            && !allowed[list[p].choice.index as int] implies is_needed(list, p) by {
        let id = s.id(list[p].choice);
        lemma_selected(s, root, allowed, removable, s.existing.ids.len(), id);
        lemma_selected_incoming(s, root, allowed, s.incoming.ids.len(), id);
        assert(s.incoming.ids[list[p].choice.index as int] == id);
        if before.dom().contains(id) {
            assert(sel[id] == before[id]);
            assert(value_of(before, id) == Some(list[p].choice));
        }
    }
    assert forall|i: int, k: int|
        0 <= i < s.incoming.ids.len() && i != root && !allowed[i] && !is_let_in(s, root, allowed, s.incoming.ids[i])
            && #[trigger] s.existing.is_at(#[trigger] s.incoming.ids[i], k) implies holds(list, false, k) by {
        let id = s.incoming.ids[i];
        assert(s.existing.ids[k] == id);
        lemma_selected(s, root, allowed, removable, s.existing.ids.len(), id);
        lemma_selected_incoming(s, root, allowed, s.incoming.ids.len(), id);
        let c = before[id];
        assert(value_of(before, id) == Some(c));
        assert(before.dom().contains(id) && sel[id] == c);
        assert(!c.incoming) by {
            if c.incoming {
                assert(s.incoming.ids[c.index as int] == id);
            }
        }
        let at = c.index as int;
        assert(s.existing.is_at(id, at));
        if at < k {
            assert(s.existing.ids[k] != id);
        } else if k < at {
            assert(s.existing.ids[at] != id);
        }
        assert(holds(list, sel[id].incoming, sel[id].index as int));
    }
    assert forall|i: int|
        0 <= i < s.incoming.ids.len() && (i == root || allowed[i]) && #[trigger] alone_with_its_id(s.incoming, i) implies holds(
        list,
        true,
        i,
    ) by {
        let id = s.incoming.ids[i];
        lemma_selected(s, root, allowed, removable, s.existing.ids.len(), id);
        lemma_selected_incoming(s, root, allowed, s.incoming.ids.len(), id);
        let c = before[id];
        assert(value_of(before, id) == Some(c));
        assert(before.dom().contains(id) && sel[id] == c);
        if c.incoming {
            assert(s.incoming.ids[c.index as int] == id);
        } else {
            let j = choose|j: int|
                0 <= j < s.incoming.ids.len() && #[trigger] s.incoming.ids[j] == id && j != root && !allowed[j];
            assert(j == i);
        }
        assert(holds(list, sel[id].incoming, sel[id].index as int));
    }
    assert forall|k: int|
        0 <= k < s.existing.ids.len() && !s.incoming.has(s.existing.ids[k]) && !(#[trigger] removable[k])
            && alone_with_its_id(s.existing, k) implies holds(list, false, k) by {
        let id = s.existing.ids[k];
        lemma_selected(s, root, allowed, removable, s.existing.ids.len(), id);
        let c = before[id];
        assert(before.dom().contains(id) && sel[id] == c);
        assert(s.existing.ids[c.index as int] == id);
        assert(holds(list, sel[id].incoming, sel[id].index as int));
    }
    assert forall|p: int| 0 <= p < list.len() && !(#[trigger] list[p]).choice.incoming implies {
        let id = s.existing.ids[list[p].choice.index as int];
        ||| is_kept_out(s, root, allowed, id)
        ||| !s.incoming.has(id) && !removable[list[p].choice.index as int]
        ||| is_needed(list, p)
    } by {
        let id = s.id(list[p].choice);
        lemma_selected(s, root, allowed, removable, s.existing.ids.len(), id);
        lemma_selected_incoming(s, root, allowed, s.incoming.ids.len(), id);
        if before.dom().contains(id) {
            assert(sel[id] == before[id]);
            assert(value_of(before, id) == Some(list[p].choice));
        }
    }
}

/// A merged service holds no id twice. Every instance of it stands under the one that has the id of its
/// parent on the side that it was taken from, which comes before it, and one of the snapshot is merged with
/// the last of the project that has its id.
pub proof fn law_merged_instances_keep_their_place(
    s: Sides,
    root: int,
    allowed: Seq<bool>,
    removable: Seq<bool>,
    list: Seq<MergedInstance>,
)
    requires
        fits(s, allowed, removable),
        is_merge(s, root, allowed, removable, Ok(list)),
    ensures
        forall|p: int|
            0 <= p < list.len() ==> (#[trigger] list[p]).choice.index < s.side(list[p].choice.incoming).ids.len(),
        forall|p: int, q: int|
            0 <= p < q < list.len() ==> s.id((#[trigger] list[p]).choice) != s.id((#[trigger] list[q]).choice),
        forall|p: int|
            0 <= p < list.len() ==> {
                let c = (#[trigger] list[p]).choice;
                let parent = s.side(c.incoming).parents[c.index as int];
                &&& parent is None ==> list[p].parent is None
                &&& parent is Some && parent->0 < s.side(c.incoming).ids.len() ==> list[p].parent is Some && list[p].parent->0
                    < p && s.id(list[list[p].parent->0 as int].choice) == s.side(c.incoming).ids[parent->0 as int]
            },
        forall|p: int, k: int|
            0 <= p < list.len() && (#[trigger] list[p]).choice.incoming && #[trigger] s.existing.is_at(s.id(list[p].choice), k)
                ==> list[p].merge_with == Some(k as usize),
        forall|p: int|
            0 <= p < list.len() && (!(#[trigger] list[p]).choice.incoming || !s.existing.has(s.id(list[p].choice)))
                ==> list[p].merge_with is None,
{
    let sel = lemma_merged(s, root, allowed, removable, list);
    assert forall|p: int, k: int|
        0 <= p < list.len() && (#[trigger] list[p]).choice.incoming && #[trigger] s.existing.is_at(s.id(list[p].choice), k) implies list[p].merge_with
        == Some(k as usize) by {
        let id = s.id(list[p].choice);
        assert(s.existing.ids[k] == id);
        lemma_last_at(s.existing, id);
        let at = last_at(s.existing, id);
        if at < k {
            assert(s.existing.ids[k] != id);
        } else if k < at {
            assert(s.existing.ids[at] != id);
        }
    }
}

/// Every choice that waits has its parent in the list or waits behind one that does.
spec fn all_rooted(s: Sides, m: MergeState, choices: Seq<Choice>) -> bool {
    forall|c: Choice| #[trigger]
        choices.contains(c) && s.parent_id(c) is Some ==> m.by_id.dom().contains(s.parent_id(c)->0) || is_id_among(
            s,
            choices,
            s.parent_id(c)->0,
        )
}

spec fn is_id_among(s: Sides, choices: Seq<Choice>, id: Seq<char>) -> bool {
    exists|c: Choice| #[trigger] choices.contains(c) && s.id(c) == id
}

spec fn all_inside(s: Sides, choices: Seq<Choice>) -> bool {
    forall|c: Choice| #[trigger] choices.contains(c) ==> c.index < s.side(c.incoming).ids.len()
}

/// Parents rank before their children, on both sides.
pub open spec fn ranks_parents_first(s: Sides, rank: spec_fn(Seq<char>) -> nat) -> bool {
    forall|incoming: bool, i: int|
        0 <= i < s.side(incoming).ids.len() && #[trigger] s.side(incoming).parent_id(i) is Some ==> rank(
            s.side(incoming).parent_id(i)->0,
        ) < rank(s.side(incoming).ids[i])
}

proof fn lemma_some_choice_fits(s: Sides, m: MergeState, choices: Seq<Choice>, rank: spec_fn(Seq<char>) -> nat, c: Choice)
    requires
        ranks_parents_first(s, rank),
        all_rooted(s, m, choices),
        all_inside(s, choices),
        choices.contains(c),
    ensures
        exists|x: Choice| #[trigger] choices.contains(x) && placeable(s, m, x),
    decreases rank(s.id(c)),
{
    if !placeable(s, m, c) {
        let p = s.parent_id(c)->0;
        assert(is_id_among(s, choices, p));
        let up = choose|up: Choice| #[trigger] choices.contains(up) && s.id(up) == p;
        assert(s.side(c.incoming).parent_id(c.index as int) is Some);
        lemma_some_choice_fits(s, m, choices, rank, up);
    }
}

proof fn lemma_merge_succeeds(s: Sides, m: MergeState, choices: Seq<Choice>, rank: spec_fn(Seq<char>) -> nat)
    requires
        m.list.len() + choices.len() <= usize::MAX,
        well_placed(s, m),
        ranks_parents_first(s, rank),
        all_rooted(s, m, choices),
        all_inside(s, choices),
    ensures
        merge_order(s, m, choices) is Some,
    decreases choices.len(),
{
    if choices.len() > 0 {
        lemma_pass(s, m, choices, choices.len());
        lemma_pass_waits(s, m, choices, choices.len());
        lemma_pass_stuck(s, m, choices, choices.len());
        let (after, waiting) = pass(s, m, choices, choices.len());
        if waiting.len() >= choices.len() {
            assert(choices.contains(choices[0]));
            lemma_some_choice_fits(s, m, choices, rank, choices[0]);
            let x = choose|x: Choice| #[trigger] choices.contains(x) && placeable(s, m, x);
            let i = choose|i: int| 0 <= i < choices.len() && choices[i] == x;
            assert(!placeable(s, m, choices[i]));
        }
        assert forall|c: Choice| #[trigger] waiting.contains(c) implies choices.contains(c) by {
            let i = choose|i: int| 0 <= i < waiting.len() && waiting[i] == c;
            assert(choices.contains(waiting[i]));
        }
        assert forall|c: Choice| #[trigger] waiting.contains(c) && s.parent_id(c) is Some implies after.by_id.dom().contains(
            s.parent_id(c)->0,
        ) || is_id_among(s, waiting, s.parent_id(c)->0) by {
            let p = s.parent_id(c)->0;
            if !m.by_id.dom().contains(p) {
                let up = choose|up: Choice| #[trigger] choices.contains(up) && s.id(up) == p;
                let i = choose|i: int| 0 <= i < choices.len() && choices[i] == up;
                assert(waiting.contains(choices[i]) || after.by_id.dom().contains(s.id(choices[i])));
            }
        }
        lemma_merge_succeeds(s, after, waiting, rank);
    }
}

/// A merge fails only where parents run in a circle: where some ranking of the ids puts every parent before
/// its children, on both sides, the merge succeeds.
pub proof fn law_merge_fails_only_on_a_circle(
    s: Sides,
    root: int,
    allowed: Seq<bool>,
    removable: Seq<bool>,
    r: Result<Seq<MergedInstance>, SyncbackError>,
    rank: spec_fn(Seq<char>) -> nat,
)
    requires
        fits(s, allowed, removable),
        is_merge(s, root, allowed, removable, r),
        ranks_parents_first(s, rank),
    ensures
        r is Ok,
{
    let before = selected(s, root, allowed, removable, s.existing.ids.len());
    let sel = choose|sel: Map<Seq<char>, Choice>| #[trigger]
        closed_over_parents(s, before, sel) && match merge_order(s, no_merge(), in_order(s, sel)) {
            Some(m) => r == Ok::<Seq<MergedInstance>, SyncbackError>(m.list),
            None => r == Err::<Seq<MergedInstance>, SyncbackError>(SyncbackError::CycleOrOrphan),
        };
    let choices = in_order(s, sel);
    lemma_chosen_len(s, sel, true, s.incoming.ids.len());
    lemma_chosen_len(s, sel, false, s.existing.ids.len());
    assert(well_placed(s, no_merge()));
    assert forall|c: Choice| #[trigger] choices.contains(c) implies c.index < s.side(c.incoming).ids.len() by {
        lemma_in_order(s, sel, c);
    }
    assert forall|c: Choice| #[trigger] choices.contains(c) && s.parent_id(c) is Some implies is_id_among(
        s,
        choices,
        s.parent_id(c)->0,
    ) by {
        lemma_in_order(s, sel, c);
        let id = s.id(c);
        assert(sel.dom().contains(id) && sel[id] == c);
        let p = s.parent_id(c)->0;
        assert(sel.dom().contains(p));
        lemma_sound(s, root, allowed, removable, sel, p);
        assert(choices.contains(sel[p]));
    }
    lemma_merge_succeeds(s, no_merge(), choices, rank);
}

} // verus!
