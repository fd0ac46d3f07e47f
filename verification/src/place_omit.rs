//! Taking out of a project's instances what no place file keeps.
use vstd::prelude::*;

use crate::link_apply::value_of;
use crate::place::{PlaceNode, PlaceProperty};
use crate::sources::{count_omitted, occurrences};
use crate::table::Table;
use crate::text::{lemma_texts_push, texts};

verus! {

broadcast use vstd::seq_lib::group_seq_properties;

/// The properties among the first `n` that a place file keeps.
pub open spec fn saved_properties(list: Seq<PlaceProperty>, n: nat) -> Seq<PlaceProperty>
    decreases n,
{
    if n == 0 {
        Seq::empty()
    } else if list[n - 1].saved {
        saved_properties(list, (n - 1) as nat).push(list[n - 1])
    } else {
        saved_properties(list, (n - 1) as nat)
    }
}

/// The names of those among the first `n` that it does not keep.
pub open spec fn unsaved_names(list: Seq<PlaceProperty>, n: nat) -> Seq<Seq<char>>
    decreases n,
{
    if n == 0 {
        Seq::empty()
    } else if list[n - 1].saved {
        unsaved_names(list, (n - 1) as nat)
    } else {
        unsaved_names(list, (n - 1) as nat).push(list[n - 1].name@)
    }
}

/// The names left out of the first `n` of some instances and of all below these.
pub open spec fn omitted_names(nodes: Seq<PlaceNode>, n: nat) -> Seq<Seq<char>>
    decreases nodes, n,
{
    if n == 0 || n > nodes.len() {
        Seq::empty()
    } else {
        let x = nodes[n - 1];
        omitted_names(nodes, (n - 1) as nat) + unsaved_names(x.properties@, x.properties@.len()) + omitted_names(
            x.children@,
            x.children@.len(),
        )
    }
}

/// An instance `y` that is `x` with the properties that a place file keeps, all below it too.
pub open spec fn is_saved_part(x: PlaceNode, y: PlaceNode) -> bool
    decreases x,
{
    &&& y.id == x.id
    &&& y.name == x.name
    &&& y.class_name == x.class_name
    &&& y.properties@ == saved_properties(x.properties@, x.properties@.len())
    &&& y.children@.len() == x.children@.len()
    &&& forall|i: int|
        0 <= i < x.children@.len() ==> is_saved_part(#[trigger] x.children@[i], y.children@[i])
}

fn keep_saved(list: &mut Vec<PlaceProperty>, names: &mut Vec<String>)
    ensures
        final(list)@ == saved_properties(old(list)@, old(list)@.len()),
        texts(final(names)@) == texts(old(names)@) + unsaved_names(old(list)@, old(list)@.len()),
{
    let ghost all = list@;
    let ghost start = texts(names@);
    let count = list.len();
    let mut seen: usize = 0;
    let mut i: usize = 0;
    assert(list@ =~= saved_properties(all, 0) + all.skip(0));
    assert(texts(names@) =~= start + unsaved_names(all, 0));
    while seen < count
        invariant
            seen <= count,
            count == all.len(),
            i == saved_properties(all, seen as nat).len(),
            list@ == saved_properties(all, seen as nat) + all.skip(seen as int),
            texts(names@) == start + unsaved_names(all, seen as nat),
        decreases count - seen,
    {
        let ghost kept = saved_properties(all, seen as nat);
        let held = list.len();
        assert(list@[i as int] == all[seen as int] && i < held);
        if list[i].saved {
            assert(list@ =~= kept.push(all[seen as int]) + all.skip(seen + 1));
            i += 1;
        } else {
            let p = list.remove(i);
            proof {
                lemma_texts_push(names@, p.name);
                assert((kept + all.skip(seen as int)).remove(kept.len() as int) =~= kept + all.skip(seen + 1));
                assert(start + unsaved_names(all, seen as nat).push(p.name@) =~= (start + unsaved_names(
                    all,
                    seen as nat,
                )).push(p.name@));
            }
            names.push(p.name);
        }
        seen += 1;
    }
    assert(list@ =~= saved_properties(all, seen as nat));
}

fn omit_below(nodes: &mut Vec<PlaceNode>, names: &mut Vec<String>)
    ensures
        final(nodes)@.len() == old(nodes)@.len(),
        forall|i: int|
            0 <= i < old(nodes)@.len() ==> is_saved_part(#[trigger] old(nodes)@[i], final(nodes)@[i]),
        texts(final(names)@) == texts(old(names)@) + omitted_names(old(nodes)@, old(nodes)@.len()),
    decreases *old(nodes),
{
    let ghost all = nodes@;
    let ghost start = texts(names@);
    let mut i: usize = 0;
    assert(texts(names@) =~= start + omitted_names(all, 0));
    while i < nodes.len()
        invariant
            all == old(nodes)@,
            i <= nodes.len(),
            nodes@.len() == all.len(),
            forall|j: int| 0 <= j < i ==> is_saved_part(#[trigger] all[j], nodes@[j]),
            forall|j: int| i <= j < all.len() ==> nodes@[j] == #[trigger] all[j],
            texts(names@) == start + omitted_names(all, i as nat),
        decreases all.len() - i,
    {
        let ghost done = nodes@;
        let ghost said = texts(names@);
        let mut x = nodes.remove(i);
        let ghost old_x = x;
        assert(old_x == all[i as int]);
        keep_saved(&mut x.properties, names);
        omit_below(&mut x.children, names);
        nodes.insert(i, x);
        proof {
            assert(is_saved_part(all[i as int], x));
            assert(nodes@ =~= done.update(i as int, x));
            assert(texts(names@) =~= start + omitted_names(all, (i + 1) as nat));
        }
        i += 1;
    }
}

/// Takes out what no place file keeps, and counts by name what was taken out.
pub fn omit_unsaved_project_properties(nodes: &mut Vec<PlaceNode>) -> (r: Table<String, usize>)
    ensures
        final(nodes)@.len() == old(nodes)@.len(),
        forall|i: int|
            0 <= i < old(nodes)@.len() ==> is_saved_part(#[trigger] old(nodes)@[i], final(nodes)@[i]),
        forall|name: Seq<char>| #[trigger]
            value_of(r@, name) == {
                let names = omitted_names(old(nodes)@, old(nodes)@.len());
                if occurrences(names, name, names.len()) == 0 {
                    None::<usize>
                } else {
                    Some(occurrences(names, name, names.len()) as usize)
                }
            },
{
    let mut names: Vec<String> = Vec::new();
    assert(texts(names@) =~= Seq::empty());
    omit_below(nodes, &mut names);
    proof {
        assert(texts(names@) =~= omitted_names(old(nodes)@, old(nodes)@.len()));
        assert(texts(names@).len() == names@.len());
    }
    count_omitted(&names)
}

} // verus!
