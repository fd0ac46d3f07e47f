//! Small tables of keys and values, kept in a list.
use vstd::prelude::*;

use crate::text::same;

verus! {

/// A key that can be compared and copied.
pub trait Key: View + Sized {
    fn same_key(&self, other: &Self) -> (r: bool)
        ensures
            r == (self@ == other@),
    ;

    fn copy_key(&self) -> (r: Self)
        ensures
            r@ == self@,
    ;
}

impl Key for String {
    fn same_key(&self, other: &Self) -> (r: bool) {
        same(self, other)
    }

    fn copy_key(&self) -> (r: Self) {
        self.clone()
    }
}

impl Key for usize {
    fn same_key(&self, other: &Self) -> (r: bool) {
        *self == *other
    }

    fn copy_key(&self) -> (r: Self) {
        *self
    }
}

pub struct Row<K, V> {
    key: K,
    value: V,
}

/// A table: each key at most once.
pub struct Table<K: Key, V: View> {
    rows: Vec<Row<K, V>>,
}

/// The map that the first rows of a table make.
spec fn rows_map<K: Key, V: View>(rows: Seq<Row<K, V>>) -> Map<K::V, V::V>
    decreases rows.len(),
{
    if rows.len() == 0 {
        Map::empty()
    } else {
        rows_map(rows.drop_last()).insert(rows.last().key@, rows.last().value@)
    }
}

spec fn distinct_keys<K: Key, V: View>(rows: Seq<Row<K, V>>) -> bool {
    forall|i: int, j: int| 0 <= i < j < rows.len() ==> (#[trigger] rows[i]).key@ != (#[trigger] rows[j]).key@
}

impl<K: Key, V: View> View for Table<K, V> {
    type V = Map<K::V, V::V>;

    closed spec fn view(&self) -> Map<K::V, V::V> {
        rows_map(self.rows@)
    }
}

proof fn lemma_row<K: Key, V: View>(rows: Seq<Row<K, V>>, i: int)
    requires
        distinct_keys(rows),
        0 <= i < rows.len(),
    ensures
        rows_map(rows).dom().contains(rows[i].key@),
        rows_map(rows)[rows[i].key@] == rows[i].value@,
    decreases rows.len(),
{
    if i < rows.len() - 1 {
        assert(distinct_keys(rows.drop_last()));
        lemma_row(rows.drop_last(), i);
        assert(rows[i].key@ != rows[rows.len() - 1].key@);
        assert(rows.drop_last()[i] == rows[i]);
    }
}

proof fn lemma_row_of<K: Key, V: View>(rows: Seq<Row<K, V>>, key: K::V) -> (i: int)
    requires
        rows_map(rows).dom().contains(key),
    ensures
        0 <= i < rows.len(),
        rows[i].key@ == key,
    decreases rows.len(),
{
    if rows.last().key@ == key {
        rows.len() - 1
    } else {
        lemma_row_of(rows.drop_last(), key)
    }
}

proof fn lemma_rows_push<K: Key, V: View>(rows: Seq<Row<K, V>>, row: Row<K, V>)
    ensures
        rows_map(rows.push(row)) == rows_map(rows).insert(row.key@, row.value@),
{
    assert(rows.push(row).drop_last() =~= rows);
}

proof fn lemma_rows_update<K: Key, V: View>(rows: Seq<Row<K, V>>, i: int, row: Row<K, V>)
    requires
        distinct_keys(rows),
        0 <= i < rows.len(),
        rows[i].key@ == row.key@,
    ensures
        distinct_keys(rows.update(i, row)),
        rows_map(rows.update(i, row)) == rows_map(rows).insert(row.key@, row.value@),
{
    let new = rows.update(i, row);
    assert(distinct_keys(new)) by {
        assert forall|a: int, b: int| 0 <= a < b < new.len() implies (#[trigger] new[a]).key@ != (#[trigger] new[b]).key@ by {
            assert(rows[a].key@ != rows[b].key@);
        }
    }
    let want = rows_map(rows).insert(row.key@, row.value@);
    assert forall|k: K::V|
        #![trigger rows_map(new).dom().contains(k)]
        #![trigger want.dom().contains(k)]
        #![trigger rows_map(new)[k]]
        rows_map(new).dom().contains(k) == want.dom().contains(k) && (want.dom().contains(k)
        ==> rows_map(new)[k] == want[k]) by {
        if want.dom().contains(k) {
            if k == row.key@ {
                lemma_row(new, i);
            } else {
                let j = lemma_row_of(rows, k);
                assert(new[j] == rows[j]);
                lemma_row(new, j);
                lemma_row(rows, j);
            }
        }
        if rows_map(new).dom().contains(k) && !want.dom().contains(k) {
            let j = lemma_row_of(new, k);
            if j != i {
                lemma_row(rows, j);
            }
        }
    }
    assert(rows_map(new) =~= want);
}

proof fn lemma_rows_remove<K: Key, V: View>(rows: Seq<Row<K, V>>, i: int)
    requires
        distinct_keys(rows),
        0 <= i < rows.len(),
    ensures
        distinct_keys(rows.remove(i)),
        rows_map(rows.remove(i)) == rows_map(rows).remove(rows[i].key@),
{
    let new = rows.remove(i);
    let key = rows[i].key@;
    assert(distinct_keys(new)) by {
        assert forall|a: int, b: int| 0 <= a < b < new.len() implies (#[trigger] new[a]).key@ != (#[trigger] new[b]).key@ by {
            let x = if a < i {
                a
            } else {
                a + 1
            };
            let y = if b < i {
                b
            } else {
                b + 1
            };
            assert(rows[x].key@ != rows[y].key@);
        }
    }
    let want = rows_map(rows).remove(key);
    assert forall|k: K::V|
        #![trigger rows_map(new).dom().contains(k)]
        #![trigger want.dom().contains(k)]
        #![trigger rows_map(new)[k]]
        rows_map(new).dom().contains(k) == want.dom().contains(k) && (want.dom().contains(k)
        ==> rows_map(new)[k] == want[k]) by {
        if want.dom().contains(k) {
            let j = lemma_row_of(rows, k);
            lemma_row(rows, j);
            let at = if j < i {
                j
            } else {
                j - 1
            };
            assert(new[at] == rows[j]);
            lemma_row(new, at);
        }
        if rows_map(new).dom().contains(k) {
            let j = lemma_row_of(new, k);
            let at = if j < i {
                j
            } else {
                j + 1
            };
            assert(new[j] == rows[at]);
            lemma_row(rows, at);
            if k == key {
                if at < i {
                    assert(rows[at].key@ != rows[i].key@);
                } else {
                    assert(rows[i].key@ != rows[at].key@);
                }
            }
        }
    }
    assert(rows_map(new) =~= want);
}

impl<K: Key, V: View> Table<K, V> {
    /// No key stands in the table twice.
    #[verifier::type_invariant]
    spec fn keys_once(&self) -> bool {
        distinct_keys(self.rows@)
    }

    pub fn new() -> (r: Table<K, V>)
        ensures
            r@ == Map::<K::V, V::V>::empty(),
    {
        Table { rows: Vec::new() }
    }

    /// The row of a key.
    fn find(&self, key: &K) -> (r: Option<usize>)
        ensures
            match r {
                Some(i) => i < self.rows@.len() && self.rows@[i as int].key@ == key@ && self@.dom().contains(key@)
                    && self@[key@] == self.rows@[i as int].value@,
                None => !self@.dom().contains(key@),
            },
    {
        proof {
            use_type_invariant(self);
        }
        let mut i: usize = 0;
        while i < self.rows.len()
            invariant
                i <= self.rows.len(),
                distinct_keys(self.rows@),
                forall|j: int| 0 <= j < i ==> (#[trigger] self.rows@[j]).key@ != key@,
            decreases self.rows.len() - i,
        {
            if self.rows[i].key.same_key(key) {
                proof {
                    lemma_row(self.rows@, i as int);
                }
                return Some(i);
            }
            i += 1;
        }
        proof {
            if self@.dom().contains(key@) {
                let j = lemma_row_of(self.rows@, key@);
            }
        }
        None
    }

    /// Hands out the rows and leaves the table empty.
    fn release(&mut self) -> (r: Vec<Row<K, V>>)
        ensures
            r@ == old(self).rows@,
    {
        let mut out = Table { rows: Vec::new() };
        std::mem::swap(self, &mut out);
        out.rows
    }

    /// The value of a key.
    pub fn get(&self, key: &K) -> (r: Option<&V>)
        ensures
            match r {
                Some(v) => self@.dom().contains(key@) && self@[key@] == v@,
                None => !self@.dom().contains(key@),
            },
    {
        match self.find(key) {
            Some(i) => Some(&self.rows[i].value),
            None => None,
        }
    }

    pub fn contains(&self, key: &K) -> (r: bool)
        ensures
            r == self@.dom().contains(key@),
    {
        self.find(key).is_some()
    }

    /// Gives a key a value.
    pub fn put(&mut self, key: K, value: V)
        ensures
            final(self)@ == old(self)@.insert(key@, value@),
    {
        proof {
            use_type_invariant(&*self);
        }
        let row = Row { key, value };
        match self.find(&row.key) {
            Some(i) => {
                proof {
                    lemma_rows_update(self.rows@, i as int, row);
                }
                let mut rows = self.release();
                rows.set(i, row);
                *self = Table { rows };
            },
            None => {
                proof {
                    lemma_rows_push(self.rows@, row);
                    assert forall|a: int, b: int|
                        0 <= a < b < self.rows@.push(row).len() implies (#[trigger] self.rows@.push(row)[a]).key@ != (
                    #[trigger] self.rows@.push(row)[b]).key@ by {
                        if b == self.rows@.len() {
                            lemma_row(self.rows@, a);
                        }
                    }
                }
                let mut rows = self.release();
                rows.push(row);
                *self = Table { rows };
            },
        }
    }

    /// Takes a key out and hands out its value.
    pub fn take(&mut self, key: &K) -> (r: Option<V>)
        ensures
            final(self)@ == old(self)@.remove(key@),
            match r {
                Some(v) => old(self)@.dom().contains(key@) && old(self)@[key@] == v@,
                None => !old(self)@.dom().contains(key@),
            },
    {
        proof {
            use_type_invariant(&*self);
        }
        match self.find(key) {
            Some(i) => {
                proof {
                    lemma_rows_remove(self.rows@, i as int);
                }
                let mut rows = self.release();
                let row = rows.remove(i);
                *self = Table { rows };
                Some(row.value)
            },
            None => {
                assert(self@ =~= self@.remove(key@));
                None
            },
        }
    }

    pub fn is_empty(&self) -> (r: bool)
        ensures
            r == (self@ == Map::<K::V, V::V>::empty()),
    {
        proof {
            use_type_invariant(self);
        }
        if self.rows.len() == 0 {
            true
        } else {
            proof {
                lemma_row(self.rows@, 0);
            }
            false
        }
    }

    /// The keys of the table, each once.
    pub fn keys(&self) -> (r: Vec<K>)
        ensures
            key_views(r@).no_duplicates(),
            forall|k: K::V| #[trigger] key_views(r@).contains(k) <==> self@.dom().contains(k),
    {
        proof {
            use_type_invariant(self);
        }
        let mut out: Vec<K> = Vec::new();
        let mut i: usize = 0;
        while i < self.rows.len()
            invariant
                i <= self.rows.len(),
                out@.len() == i,
                forall|j: int| 0 <= j < i ==> (#[trigger] out@[j])@ == self.rows@[j].key@,
            decreases self.rows.len() - i,
        {
            out.push(self.rows[i].key.copy_key());
            i += 1;
        }
        let ghost views = key_views(out@);
        proof {
            assert forall|a: int, b: int| 0 <= a < views.len() && 0 <= b < views.len() && a != b implies views[a]
                != views[b] by {
                let (x, y) = if a < b {
                    (a, b)
                } else {
                    (b, a)
                };
                assert(out@[x]@ == self.rows@[x].key@ && out@[y]@ == self.rows@[y].key@);
                assert(self.rows@[x].key@ != self.rows@[y].key@);
            }
            assert forall|k: K::V| #[trigger] views.contains(k) implies self@.dom().contains(k) by {
                let a = choose|a: int| 0 <= a < views.len() && views[a] == k;
                assert(out@[a]@ == self.rows@[a].key@);
                lemma_row(self.rows@, a);
            }
            assert forall|k: K::V| self@.dom().contains(k) implies #[trigger] views.contains(k) by {
                let a = lemma_row_of(self.rows@, k);
                assert(out@[a]@ == self.rows@[a].key@);
                assert(views[a] == k);
            }
        }
        out
    }
}

/// The views of some keys.
pub open spec fn key_views<K: Key>(v: Seq<K>) -> Seq<K::V> {
    Seq::new(v.len(), |i: int| v[i]@)
}

} // verus!
