//! Sets kept in order, and the orders of texts and paths.
use vstd::prelude::*;

use crate::paths::{FilePath, PathParts};
use crate::table::{key_views, Key};
use crate::text::{lemma_text_less_total, lemma_text_less_transitive, less, same, text_less, texts};
use crate::wally_sync::PathKey;

verus! {

broadcast use vstd::seq_lib::group_seq_properties;

/// Values with a total order.
pub trait Ordered: Key {
    spec fn before(a: Self::V, b: Self::V) -> bool;

    fn comes_before(&self, other: &Self) -> (r: bool)
        ensures
            r == Self::before(self@, other@),
    ;

    proof fn lemma_total(a: Self::V, b: Self::V)
        ensures
            !(Self::before(a, b) && Self::before(b, a)),
            Self::before(a, b) || Self::before(b, a) || a == b,
            a == b ==> !Self::before(a, b),
    ;

    proof fn lemma_transitive(a: Self::V, b: Self::V, c: Self::V)
        requires
            Self::before(a, b),
            Self::before(b, c),
        ensures
            Self::before(a, c),
    ;
}

impl Ordered for String {
    open spec fn before(a: Seq<char>, b: Seq<char>) -> bool {
        text_less(a, b)
    }

    fn comes_before(&self, other: &Self) -> (r: bool) {
        less(self, other)
    }

    proof fn lemma_total(a: Seq<char>, b: Seq<char>) {
        lemma_text_less_total(a, b);
    }

    proof fn lemma_transitive(a: Seq<char>, b: Seq<char>, c: Seq<char>) {
        lemma_text_less_transitive(a, b, c);
    }
}

/// Lists of texts in order: the first difference decides, and a list comes before what it begins.
pub open spec fn list_less(a: Seq<Seq<char>>, b: Seq<Seq<char>>) -> bool
    decreases a.len(),
{
    if a.len() == 0 {
        b.len() > 0
    } else if b.len() == 0 {
        false
    } else if a[0] == b[0] {
        list_less(a.drop_first(), b.drop_first())
    } else {
        text_less(a[0], b[0])
    }
}

pub fn list_comes_before(a: &Vec<String>, b: &Vec<String>) -> (r: bool)
    ensures
        r == list_less(texts(a@), texts(b@)),
{
    let ghost x = texts(a@);
    let ghost y = texts(b@);
    let mut i: usize = 0;
    assert(x.skip(0) =~= x && y.skip(0) =~= y);
    loop
        invariant
            x == texts(a@),
            y == texts(b@),
            i <= a.len(),
            i <= b.len(),
            list_less(x.skip(i as int), y.skip(i as int)) == list_less(x, y),
        decreases a.len() - i,
    {
        if i == b.len() {
            return false;
        }
        if i == a.len() {
            return true;
        }
        assert(x.skip(i as int)[0] == a@[i as int]@);
        assert(y.skip(i as int)[0] == b@[i as int]@);
        if !same(&a[i], &b[i]) {
            return less(&a[i], &b[i]);
        }
        assert(x.skip(i as int).drop_first() =~= x.skip(i + 1));
        assert(y.skip(i as int).drop_first() =~= y.skip(i + 1));
        i += 1;
    }
}

pub proof fn lemma_list_less_total(a: Seq<Seq<char>>, b: Seq<Seq<char>>)
    ensures
        !(list_less(a, b) && list_less(b, a)),
        list_less(a, b) || list_less(b, a) || a == b,
        a == b ==> !list_less(a, b),
    decreases a.len(),
{
    if a.len() > 0 && b.len() > 0 {
        lemma_text_less_total(a[0], b[0]);
        if a[0] == b[0] {
            lemma_list_less_total(a.drop_first(), b.drop_first());
            assert(a =~= seq![a[0]] + a.drop_first());
            assert(b =~= seq![b[0]] + b.drop_first());
        }
    } else if a.len() == 0 && b.len() == 0 {
        assert(a =~= b);
    }
}

pub proof fn lemma_list_less_transitive(a: Seq<Seq<char>>, b: Seq<Seq<char>>, c: Seq<Seq<char>>)
    requires
        list_less(a, b),
        list_less(b, c),
    ensures
        list_less(a, c),
    decreases a.len(),
{
    if a.len() > 0 && b.len() > 0 && c.len() > 0 {
        if a[0] == b[0] && b[0] == c[0] {
            lemma_list_less_transitive(a.drop_first(), b.drop_first(), c.drop_first());
        } else if a[0] != b[0] && b[0] != c[0] {
            lemma_text_less_transitive(a[0], b[0], c[0]);
            lemma_text_less_total(a[0], c[0]);
        }
    }
}

impl Ordered for PathKey {
    open spec fn before(a: Seq<Seq<char>>, b: Seq<Seq<char>>) -> bool {
        list_less(a, b)
    }

    fn comes_before(&self, other: &Self) -> (r: bool) {
        list_comes_before(&self.segments, &other.segments)
    }

    proof fn lemma_total(a: Seq<Seq<char>>, b: Seq<Seq<char>>) {
        lemma_list_less_total(a, b);
    }

    proof fn lemma_transitive(a: Seq<Seq<char>>, b: Seq<Seq<char>>, c: Seq<Seq<char>>) {
        lemma_list_less_transitive(a, b, c);
    }
}

/// File paths in order: those from the root come first, then by their components.
pub open spec fn path_less(a: PathParts, b: PathParts) -> bool {
    if a.rooted == b.rooted {
        list_less(a.parts, b.parts)
    } else {
        a.rooted
    }
}

impl Ordered for FilePath {
    open spec fn before(a: PathParts, b: PathParts) -> bool {
        path_less(a, b)
    }

    fn comes_before(&self, other: &Self) -> (r: bool) {
        if self.rooted == other.rooted {
            list_comes_before(&self.parts, &other.parts)
        } else {
            self.rooted
        }
    }

    proof fn lemma_total(a: PathParts, b: PathParts) {
        lemma_list_less_total(a.parts, b.parts);
    }

    proof fn lemma_transitive(a: PathParts, b: PathParts, c: PathParts) {
        if a.rooted == b.rooted && b.rooted == c.rooted {
            lemma_list_less_transitive(a.parts, b.parts, c.parts);
        }
    }
}

/// Each value comes before the next.
pub open spec fn ascending<T: Ordered>(v: Seq<T::V>) -> bool {
    forall|i: int, j: int| 0 <= i < j < v.len() ==> T::before(#[trigger] v[i], #[trigger] v[j])
}

/// A set whose items are kept in order.
pub struct SortedSet<T: Ordered> {
    items: Vec<T>,
}

impl<T: Ordered> View for SortedSet<T> {
    type V = Seq<T::V>;

    closed spec fn view(&self) -> Seq<T::V> {
        key_views(self.items@)
    }
}

impl<T: Ordered> SortedSet<T> {
    #[verifier::type_invariant]
    spec fn in_order(&self) -> bool {
        ascending::<T>(key_views(self.items@))
    }

    pub fn new() -> (r: SortedSet<T>)
        ensures
            r@ == Seq::<T::V>::empty(),
    {
        let items: Vec<T> = Vec::new();
        assert(key_views(items@) =~= Seq::<T::V>::empty());
        SortedSet { items }
    }

    /// The place of the first item that does not come before `x`.
    fn place(&self, x: &T) -> (r: usize)
        ensures
            r <= self.items@.len(),
            forall|j: int| 0 <= j < r ==> T::before(#[trigger] self@[j], x@),
            r < self.items@.len() ==> !T::before(self@[r as int], x@),
    {
        let mut i: usize = 0;
        while i < self.items.len()
            invariant
                i <= self.items.len(),
                forall|j: int| 0 <= j < i ==> T::before(#[trigger] self@[j], x@),
            decreases self.items.len() - i,
        {
            assert(self@[i as int] == self.items@[i as int]@);
            if !self.items[i].comes_before(x) {
                return i;
            }
            i += 1;
        }
        i
    }

    pub fn contains(&self, x: &T) -> (r: bool)
        ensures
            r == self@.contains(x@),
    {
        proof {
            use_type_invariant(self);
        }
        let at = self.place(x);
        if at < self.items.len() {
            assert(self@[at as int] == self.items@[at as int]@);
            if self.items[at].same_key(x) {
                return true;
            }
        }
        proof {
            if self@.contains(x@) {
                let j = choose|j: int| 0 <= j < self@.len() && self@[j] == x@;
                T::lemma_total(x@, x@);
                assert(j >= at);
                if j > at {
                    assert(T::before(self@[at as int], self@[j]));
                }
            }
        }
        false
    }

    /// Puts an item in, unless it is there; whether it was not.
    pub fn insert(&mut self, x: T) -> (r: bool)
        ensures
            r == !old(self)@.contains(x@),
            forall|k: T::V| #[trigger] final(self)@.contains(k) <==> old(self)@.contains(k) || k == x@,
            ascending::<T>(final(self)@),
            !r ==> final(self)@ == old(self)@,
    {
        proof {
            use_type_invariant(&*self);
        }
        let ghost before = self@;
        let ghost value = x@;
        if self.contains(&x) {
            return false;
        }
        let at = self.place(&x);
        let mut taken = SortedSet { items: Vec::new() };
        std::mem::swap(self, &mut taken);
        let mut items = taken.items;
        items.insert(at, x);
        proof {
            let now = key_views(items@);
            assert(now =~= before.insert(at as int, value));
            assert forall|i: int, j: int| 0 <= i < j < now.len() implies T::before(#[trigger] now[i], #[trigger] now[j]) by {
                T::lemma_total(value, value);
                if j == at {
                    assert(T::before(before[i], value));
                } else if i == at {
                    assert(now[j] == before[j - 1]);
                    assert(!T::before(before[at as int], value));
                    T::lemma_total(before[at as int], value);
                    assert(before.contains(before[at as int]));
                    if j - 1 > at {
                        assert(T::before(before[at as int], before[j - 1]));
                        T::lemma_transitive(value, before[at as int], before[j - 1]);
                    }
                } else {
                    let a = if i < at {
                        i
                    } else {
                        i - 1
                    };
                    let b = if j < at {
                        j
                    } else {
                        j - 1
                    };
                    assert(T::before(before[a], before[b]));
                }
            }
            assert forall|k: T::V| #[trigger] now.contains(k) <==> before.contains(k) || k == value by {
                if now.contains(k) {
                    let i = choose|i: int| 0 <= i < now.len() && now[i] == k;
                    if i < at {
                        assert(before[i] == k);
                    } else if i > at {
                        assert(before[i - 1] == k);
                    }
                }
                if before.contains(k) {
                    let i = choose|i: int| 0 <= i < before.len() && before[i] == k;
                    if i < at {
                        assert(now[i] == k);
                    } else {
                        assert(now[i + 1] == k);
                    }
                }
                assert(now[at as int] == value);
            }
        }
        *self = SortedSet { items };
        true
    }

    pub fn len(&self) -> (r: usize)
        ensures
            r == self@.len(),
    {
        self.items.len()
    }

    pub fn at(&self, i: usize) -> (r: &T)
        requires
            i < self@.len(),
        ensures
            r@ == self@[i as int],
    {
        &self.items[i]
    }

    /// The items in order.
    pub fn into_items(self) -> (r: Vec<T>)
        ensures
            key_views(r@) == self@,
            ascending::<T>(key_views(r@)),
    {
        proof {
            use_type_invariant(&self);
        }
        self.items
    }
}

/// Two lists in order that hold the same values are one.
pub proof fn law_order_settles_the_list<T: Ordered>(a: Seq<T::V>, b: Seq<T::V>)
    requires
        ascending::<T>(a),
        ascending::<T>(b),
        forall|k: T::V| #[trigger] a.contains(k) <==> b.contains(k),
    ensures
        a == b,
    decreases a.len(),
{
    if a.len() == 0 {
        if b.len() > 0 {
            assert(b.contains(b[0]));
            assert(!a.contains(b[0]));
        }
        assert(a =~= b);
    } else {
        assert(a.contains(a[0]));
        assert(b.len() > 0);
        assert(b.contains(b[0]));
        assert(a.contains(b[0]));
        let i = choose|i: int| 0 <= i < b.len() && b[i] == a[0];
        let j = choose|j: int| 0 <= j < a.len() && a[j] == b[0];
        T::lemma_total(a[0], b[0]);
        if i > 0 && j > 0 {
            assert(T::before(b[0], b[i]));
            assert(T::before(a[0], a[j]));
        }
        assert(a[0] == b[0]);
        let x = a.drop_first();
        let y = b.drop_first();
        assert forall|p: int, q: int| 0 <= p < q < x.len() implies T::before(#[trigger] x[p], #[trigger] x[q]) by {
            assert(T::before(a[p + 1], a[q + 1]));
        }
        assert forall|p: int, q: int| 0 <= p < q < y.len() implies T::before(#[trigger] y[p], #[trigger] y[q]) by {
            assert(T::before(b[p + 1], b[q + 1]));
        }
        assert forall|k: T::V| #[trigger] x.contains(k) <==> y.contains(k) by {
            lemma_rest_contains::<T>(a, k);
            lemma_rest_contains::<T>(b, k);
        }
        law_order_settles_the_list::<T>(x, y);
        assert(a =~= seq![a[0]] + x);
        assert(b =~= seq![b[0]] + y);
    }
}

/// What follows the first value of a list in order: the others.
proof fn lemma_rest_contains<T: Ordered>(a: Seq<T::V>, k: T::V)
    requires
        a.len() > 0,
        ascending::<T>(a),
    ensures
        a.drop_first().contains(k) <==> a.contains(k) && k != a[0],
{
    let x = a.drop_first();
    if x.contains(k) {
        let p = choose|p: int| 0 <= p < x.len() && x[p] == k;
        assert(a[p + 1] == k);
        assert(T::before(a[0], a[p + 1]));
        T::lemma_total(a[0], k);
    }
    if a.contains(k) && k != a[0] {
        let p = choose|p: int| 0 <= p < a.len() && a[p] == k;
        assert(x[p - 1] == k);
    }
}

/// `r` holds the texts of a list in order, each once.
pub open spec fn is_in_order(list: Seq<Seq<char>>, r: Seq<Seq<char>>) -> bool {
    &&& ascending::<String>(r)
    &&& forall|k: Seq<char>| #[trigger] r.contains(k) <==> list.contains(k)
}

/// The texts of a list in order, each once.
pub open spec fn in_order(list: Seq<Seq<char>>) -> Seq<Seq<char>> {
    choose|r: Seq<Seq<char>>| is_in_order(list, r)
}

pub proof fn lemma_in_order(list: Seq<Seq<char>>, r: Seq<Seq<char>>)
    requires
        is_in_order(list, r),
    ensures
        in_order(list) == r,
        is_in_order(list, in_order(list)),
{
    let other = in_order(list);
    assert(is_in_order(list, other));
    assert forall|k: Seq<char>| #[trigger] other.contains(k) <==> r.contains(k) by {}
    law_order_settles_the_list::<String>(other, r);
}

/// The texts of a list in order, each once.
pub fn sorted_once(list: &Vec<String>) -> (r: Vec<String>)
    ensures
        texts(r@) == in_order(texts(list@)),
        is_in_order(texts(list@), texts(r@)),
{
    let mut set: SortedSet<String> = SortedSet::new();
    let ghost all = texts(list@);
    let mut i: usize = 0;
    while i < list.len()
        invariant
            i <= list.len(),
            all == texts(list@),
            forall|k: Seq<char>| #[trigger] set@.contains(k) <==> all.take(i as int).contains(k),
        decreases list.len() - i,
    {
        let ghost before = set@;
        proof {
            crate::naming::lemma_take_contains(all, i as int);
            assert(all[i as int] == list@[i as int]@);
        }
        set.insert(list[i].clone());
        assert forall|k: Seq<char>| #[trigger] set@.contains(k) <==> all.take(i + 1).contains(k) by {
            assert(before.contains(k) <==> all.take(i as int).contains(k));
        }
        i += 1;
    }
    assert(all.take(i as int) =~= all);
    let r = set.into_items();
    proof {
        assert(texts(r@) =~= key_views(r@));
        lemma_in_order(all, texts(r@));
    }
    r
}

/// Values that a list is sorted by; equal ones keep their order.
pub trait Ranked: View + Sized {
    spec fn ranks_before(a: Self::V, b: Self::V) -> bool;

    fn is_before(&self, other: &Self) -> (r: bool)
        ensures
            r == Self::ranks_before(self@, other@),
    ;

    /// What does not come before does so through others too, and nothing comes before what it follows.
    proof fn lemma_ranks(a: Self::V, b: Self::V, c: Self::V)
        ensures
            !Self::ranks_before(b, a) && !Self::ranks_before(c, b) ==> !Self::ranks_before(c, a),
            Self::ranks_before(a, b) ==> !Self::ranks_before(b, a),
    ;
}

pub open spec fn views<T: Ranked>(v: Seq<T>) -> Seq<T::V> {
    Seq::new(v.len(), |i: int| v[i]@)
}

/// A sorted list with one more value, behind all that it does not come before.
pub open spec fn inserted<T: Ranked>(v: Seq<T::V>, x: T::V) -> Seq<T::V>
    decreases v.len(),
{
    if v.len() == 0 {
        seq![x]
    } else if T::ranks_before(x, v.last()) {
        inserted::<T>(v.drop_last(), x).push(v.last())
    } else {
        v.push(x)
    }
}

/// The first `n` values of a list, sorted.
pub open spec fn sorted<T: Ranked>(v: Seq<T::V>, n: nat) -> Seq<T::V>
    decreases n,
{
    if n == 0 {
        Seq::empty()
    } else {
        inserted::<T>(sorted::<T>(v, (n - 1) as nat), v[n - 1])
    }
}

proof fn lemma_inserted_at<T: Ranked>(v: Seq<T::V>, x: T::V, at: int)
    requires
        0 <= at <= v.len(),
        forall|j: int| at <= j < v.len() ==> T::ranks_before(x, #[trigger] v[j]),
        at > 0 ==> !T::ranks_before(x, v[at - 1]),
    ensures
        inserted::<T>(v, x) == v.insert(at, x),
    decreases v.len(),
{
    if v.len() == 0 {
        assert(v.insert(0, x) =~= seq![x]);
    } else if at < v.len() {
        assert(T::ranks_before(x, v[v.len() - 1]));
        let rest = v.drop_last();
        assert forall|j: int| at <= j < rest.len() implies T::ranks_before(x, #[trigger] rest[j]) by {
            assert(rest[j] == v[j]);
        }
        lemma_inserted_at::<T>(rest, x, at);
        assert(rest.insert(at, x).push(v.last()) =~= v.insert(at, x));
    } else {
        assert(v.push(x) =~= v.insert(at, x));
    }
}

/// Puts a value into a sorted list.
pub fn insert_ranked<T: Ranked>(list: &mut Vec<T>, x: T)
    ensures
        views(final(list)@) == inserted::<T>(views(old(list)@), x@),
{
    let ghost before = views(list@);
    let ghost value = x@;
    let mut at: usize = list.len();
    while at > 0 && x.is_before(&list[at - 1])
        invariant
            at <= list.len(),
            before == views(list@),
            value == x@,
            forall|j: int| at <= j < list.len() ==> T::ranks_before(value, #[trigger] before[j]),
        decreases at,
    {
        assert(before[at - 1] == list@[at - 1]@);
        at -= 1;
    }
    proof {
        if at > 0 {
            assert(before[at - 1] == list@[at - 1]@);
        }
        lemma_inserted_at::<T>(before, value, at as int);
    }
    list.insert(at, x);
    assert(views(list@) =~= before.insert(at as int, value));
}

/// Sorts a list; equal values keep their order.
pub fn sort_ranked<T: Ranked>(list: Vec<T>) -> (r: Vec<T>)
    ensures
        views(r@) == sorted::<T>(views(list@), list@.len()),
{
    let ghost all = views(list@);
    let mut rest = list;
    let mut out: Vec<T> = Vec::new();
    let ghost mut n: nat = 0;
    assert(views(out@) =~= Seq::empty());
    assert(all.skip(0) =~= all);
    while rest.len() > 0
        invariant
            n <= all.len(),
            rest@.len() == all.len() - n,
            views(rest@) == all.skip(n as int),
            views(out@) == sorted::<T>(all, n),
        decreases rest@.len(),
    {
        let ghost before = rest@;
        assert(views(before)[0] == all[n as int]);
        let x = rest.remove(0);
        proof {
            assert(views(rest@) =~= views(before).drop_first());
            assert(all.skip(n as int).drop_first() =~= all.skip((n + 1) as int));
            n = n + 1;
        }
        insert_ranked(&mut out, x);
    }
    assert(all.len() == list@.len());
    out
}

/// Nothing in a list comes before what precedes it.
pub open spec fn in_rank<T: Ranked>(v: Seq<T::V>) -> bool {
    forall|i: int, j: int| 0 <= i < j < v.len() ==> !T::ranks_before(#[trigger] v[j], #[trigger] v[i])
}

/// Sorting puts a list in order and keeps what it holds.
pub proof fn law_sorting_orders<T: Ranked>(v: Seq<T::V>, n: nat)
    requires
        n <= v.len(),
    ensures
        in_rank::<T>(sorted::<T>(v, n)),
        sorted::<T>(v, n).to_multiset() == v.take(n as int).to_multiset(),
    decreases n,
{
    broadcast use vstd::seq_lib::group_to_multiset_ensures;

    if n > 0 {
        law_sorting_orders::<T>(v, (n - 1) as nat);
        lemma_inserted_in_rank::<T>(sorted::<T>(v, (n - 1) as nat), v[n - 1]);
        lemma_inserted_multiset::<T>(sorted::<T>(v, (n - 1) as nat), v[n - 1]);
        assert(v.take(n as int) =~= v.take(n - 1).push(v[n - 1]));
    } else {
        assert(v.take(0) =~= Seq::empty());
    }
}

proof fn lemma_inserted_multiset<T: Ranked>(v: Seq<T::V>, x: T::V)
    ensures
        inserted::<T>(v, x).to_multiset() == v.to_multiset().insert(x),
    decreases v.len(),
{
    broadcast use {vstd::seq_lib::group_to_multiset_ensures, vstd::multiset::group_multiset_axioms};

    if v.len() == 0 {
        assert(seq![x] =~= v.push(x));
    } else if T::ranks_before(x, v.last()) {
        lemma_inserted_multiset::<T>(v.drop_last(), x);
        assert(v =~= v.drop_last().push(v.last()));
        assert(inserted::<T>(v, x).to_multiset() =~= v.to_multiset().insert(x));
    }
}

proof fn lemma_inserted_in_rank<T: Ranked>(v: Seq<T::V>, x: T::V)
    requires
        in_rank::<T>(v),
    ensures
        in_rank::<T>(inserted::<T>(v, x)),
        forall|y: T::V|
            (forall|i: int| 0 <= i < v.len() ==> !T::ranks_before(y, #[trigger] v[i])) && !T::ranks_before(y, x) ==> forall|i: int|
                0 <= i < inserted::<T>(v, x).len() ==> !T::ranks_before(y, #[trigger] inserted::<T>(v, x)[i]),
    decreases v.len(),
{
    let r = inserted::<T>(v, x);
    if v.len() == 0 {
    } else if T::ranks_before(x, v.last()) {
        let rest = v.drop_last();
        let inner = inserted::<T>(rest, x);
        assert forall|i: int, j: int| 0 <= i < j < rest.len() implies !T::ranks_before(#[trigger] rest[j], #[trigger] rest[i]) by {
            assert(!T::ranks_before(v[j], v[i]));
        }
        lemma_inserted_in_rank::<T>(rest, x);
        let last = v.last();
        T::lemma_ranks(x, last, last);
        assert forall|i: int| 0 <= i < rest.len() implies !T::ranks_before(last, #[trigger] rest[i]) by {
            assert(!T::ranks_before(v[v.len() - 1], v[i]));
        }
        assert forall|i: int, j: int| 0 <= i < j < r.len() implies !T::ranks_before(#[trigger] r[j], #[trigger] r[i]) by {
            if j < inner.len() {
                assert(r[j] == inner[j] && r[i] == inner[i]);
            } else {
                assert(r[j] == last && r[i] == inner[i]);
            }
        }
        assert forall|y: T::V|
            (forall|i: int| 0 <= i < v.len() ==> !T::ranks_before(y, #[trigger] v[i])) && !T::ranks_before(y, x) implies forall|
            i: int,
        |
            0 <= i < r.len() ==> !T::ranks_before(y, #[trigger] r[i]) by {
            assert forall|i: int| 0 <= i < rest.len() implies !T::ranks_before(y, #[trigger] rest[i]) by {
                assert(!T::ranks_before(y, v[i]));
            }
            assert forall|i: int| 0 <= i < r.len() implies !T::ranks_before(y, #[trigger] r[i]) by {
                if i < inner.len() {
                    assert(r[i] == inner[i]);
                } else {
                    assert(r[i] == v[v.len() - 1]);
                }
            }
        }
    } else {
        assert forall|i: int, j: int| 0 <= i < j < r.len() implies !T::ranks_before(#[trigger] r[j], #[trigger] r[i]) by {
            if j < v.len() {
                assert(!T::ranks_before(v[j], v[i]));
            } else {
                if i < v.len() - 1 {
                    assert(!T::ranks_before(v[v.len() - 1], v[i]));
                }
                T::lemma_ranks(v[i], v.last(), x);
            }
        }
    }
}

} // verus!
