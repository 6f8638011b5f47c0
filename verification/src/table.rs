//! Tables of rows identified by a key, as the cache keeps them: writing a
//! row replaces the row with the same key and puts the new one last.

use vstd::prelude::*;

verus! {

/// A row that carries a key of type `K`.
pub trait Keyed<K> {
    spec fn key(&self) -> K;
}

/// No two rows of `s` share a key.
pub open spec fn unique_keys<K, T: Keyed<K>>(s: Seq<T>) -> bool {
    forall|i: int, j: int| 0 <= i < j < s.len() ==> s[i].key() != s[j].key()
}

/// Some row of `s` has the key `k`.
pub open spec fn has_key<K, T: Keyed<K>>(s: Seq<T>, k: K) -> bool {
    exists|i: int| 0 <= i < s.len() && s[i].key() == k
}

/// `s` without its rows whose key is `k`, the others in their order.
pub open spec fn without_key<K, T: Keyed<K>>(s: Seq<T>, k: K) -> Seq<T>
    decreases s.len(),
{
    if s.len() == 0 {
        s
    } else {
        let rest = without_key(s.drop_last(), k);
        if s.last().key() == k {
            rest
        } else {
            rest.push(s.last())
        }
    }
}

/// Writing `x` into `s`: the row with the same key goes, `x` comes last.
pub open spec fn upsert<K, T: Keyed<K>>(s: Seq<T>, x: T) -> Seq<T> {
    without_key(s, x.key()).push(x)
}

/// The last row of `s` whose key is `k`.
pub open spec fn lookup<K, T: Keyed<K>>(s: Seq<T>, k: K) -> Option<T>
    decreases s.len(),
{
    if s.len() == 0 {
        None
    } else if s.last().key() == k {
        Some(s.last())
    } else {
        lookup(s.drop_last(), k)
    }
}

/// Removing a key that no row has leaves the table as it is.
pub proof fn lemma_without_absent<K, T: Keyed<K>>(s: Seq<T>, k: K)
    requires
        !has_key(s, k),
    ensures
        without_key(s, k) == s,
    decreases s.len(),
{
    if s.len() > 0 {
        let t = s.drop_last();
        assert(!has_key(t, k)) by {
            if has_key(t, k) {
                let i = choose|i: int| 0 <= i < t.len() && t[i].key() == k;
                assert(s[i] == t[i]);
            }
        }
        lemma_without_absent(t, k);
        assert(s.last().key() != k) by {
            assert(s[s.len() - 1] == s.last());
        }
        assert(t.push(s.last()) =~= s);
    }
}

/// In a table with unique keys, removing the key of row `j` removes
/// exactly that row.
pub proof fn lemma_without_at<K, T: Keyed<K>>(s: Seq<T>, j: int)
    requires
        unique_keys(s),
        0 <= j < s.len(),
    ensures
        without_key(s, s[j].key()) == s.remove(j),
    decreases s.len(),
{
    let k = s[j].key();
    let t = s.drop_last();
    if j == s.len() - 1 {
        assert(!has_key(t, k)) by {
            if has_key(t, k) {
                let i = choose|i: int| 0 <= i < t.len() && t[i].key() == k;
                assert(s[i] == t[i]);
            }
        }
        lemma_without_absent(t, k);
        assert(s.remove(j) =~= t);
    } else {
        assert(unique_keys(t)) by {
            assert forall|a: int, b: int| 0 <= a < b < t.len() implies t[a].key() != t[b].key() by {
                assert(t[a] == s[a] && t[b] == s[b]);
            }
        }
        assert(t[j] == s[j]);
        lemma_without_at(t, j);
        assert(s.last().key() != k) by {
            assert(s[s.len() - 1] == s.last());
        }
        assert(t.remove(j).push(s.last()) =~= s.remove(j));
    }
}

/// No row of `without_key(s, k)` has the key `k`, and every row of it is
/// a row of `s`.
pub proof fn lemma_without_rows<K, T: Keyed<K>>(s: Seq<T>, k: K)
    ensures
        !has_key(without_key(s, k), k),
        forall|x: T| without_key(s, k).contains(x) ==> s.contains(x),
        forall|x: T| s.contains(x) && x.key() != k ==> without_key(s, k).contains(x),
    decreases s.len(),
{
    if s.len() > 0 {
        let t = s.drop_last();
        lemma_without_rows(t, k);
        let rest = without_key(t, k);
        assert forall|x: T| without_key(s, k).contains(x) implies s.contains(x) by {
            let r = without_key(s, k);
            let m = choose|m: int| 0 <= m < r.len() && r[m] == x;
            if m < rest.len() {
                assert(rest[m] == x);
                assert(rest.contains(x));
                assert(t.contains(x));
                let i = choose|i: int| 0 <= i < t.len() && t[i] == x;
                assert(s[i] == x);
            } else {
                assert(x == s.last());
                assert(s[s.len() - 1] == x);
            }
        }
        assert forall|x: T| s.contains(x) && x.key() != k implies without_key(s, k).contains(x) by {
            let i = choose|i: int| 0 <= i < s.len() && s[i] == x;
            if i < s.len() - 1 {
                assert(t[i] == x);
                assert(t.contains(x));
                let r = without_key(s, k);
                if s.last().key() != k {
                    let m = choose|m: int| 0 <= m < rest.len() && rest[m] == x;
                    assert(r[m] == x);
                }
            } else {
                let r = without_key(s, k);
                assert(r[r.len() - 1] == x);
            }
        }
        if s.last().key() != k {
            let r = without_key(s, k);
            assert(!has_key(r, k)) by {
                if has_key(r, k) {
                    let i = choose|i: int| 0 <= i < r.len() && r[i].key() == k;
                    if i < rest.len() {
                        assert(r[i] == rest[i]);
                    }
                }
            }
        }
    }
}

/// Writing a row into a table with unique keys keeps the keys unique.
pub proof fn lemma_upsert_unique<K, T: Keyed<K>>(s: Seq<T>, x: T)
    requires
        unique_keys(s),
    ensures
        unique_keys(upsert(s, x)),
        upsert(s, x).last() == x,
        forall|y: T| s.contains(y) && y.key() != x.key() ==> upsert(s, x).contains(y),
        forall|y: T| upsert(s, x).contains(y) ==> y == x || (s.contains(y) && y.key() != x.key()),
{
    let k = x.key();
    let r = without_key(s, k);
    lemma_without_rows(s, k);
    if has_key(s, k) {
        let j = choose|j: int| 0 <= j < s.len() && s[j].key() == k;
        lemma_without_at(s, j);
        assert(unique_keys(r)) by {
            assert forall|a: int, b: int| 0 <= a < b < r.len() implies r[a].key() != r[b].key() by {
                let a2 = if a < j { a } else { a + 1 };
                let b2 = if b < j { b } else { b + 1 };
                assert(r[a] == s[a2] && r[b] == s[b2]);
            }
        }
    } else {
        lemma_without_absent(s, k);
    }
    let u = upsert(s, x);
    assert forall|a: int, b: int| 0 <= a < b < u.len() implies u[a].key() != u[b].key() by {
        assert(u[a] == r[a]);
        if b < r.len() {
            assert(u[b] == r[b]);
        } else {
            assert(u[b] == x);
            assert(r.contains(r[a]));
        }
    }
    assert forall|y: T| s.contains(y) && y.key() != x.key() implies u.contains(y) by {
        let m = choose|m: int| 0 <= m < r.len() && r[m] == y;
        assert(u[m] == y);
    }
    assert forall|y: T| u.contains(y) implies y == x || (s.contains(y) && y.key() != x.key()) by {
        let m = choose|m: int| 0 <= m < u.len() && u[m] == y;
        if m < r.len() {
            assert(r[m] == y);
            assert(r.contains(y));
        }
    }
}

/// Looking a key up after a write: the written row for its own key, the
/// earlier answer for any other key.
pub proof fn lemma_lookup_upsert<K, T: Keyed<K>>(s: Seq<T>, x: T, k: K)
    ensures
        lookup(upsert(s, x), x.key()) == Some(x),
        k != x.key() ==> lookup(upsert(s, x), k) == lookup(s, k),
{
    let u = upsert(s, x);
    assert(u.drop_last() =~= without_key(s, x.key()));
    if k != x.key() {
        lemma_lookup_without(s, x.key(), k);
    }
}

/// Removing one key does not change what another key finds.
pub proof fn lemma_lookup_without<K, T: Keyed<K>>(s: Seq<T>, removed: K, k: K)
    requires
        k != removed,
    ensures
        lookup(without_key(s, removed), k) == lookup(s, k),
    decreases s.len(),
{
    if s.len() > 0 {
        let t = s.drop_last();
        lemma_lookup_without(t, removed, k);
        if s.last().key() != removed {
            assert(without_key(s, removed).drop_last() =~= without_key(t, removed));
        }
    }
}

/// `s` after writing each of `xs` in turn.
pub open spec fn upsert_all<K, T: Keyed<K>>(s: Seq<T>, xs: Seq<T>) -> Seq<T>
    decreases xs.len(),
{
    if xs.len() == 0 {
        s
    } else {
        upsert(upsert_all(s, xs.drop_last()), xs.last())
    }
}

/// Writing rows with distinct keys one after another into a table with
/// unique keys keeps the keys unique and leaves every written row there.
pub proof fn lemma_upsert_all<K, T: Keyed<K>>(s: Seq<T>, xs: Seq<T>)
    requires
        unique_keys(s),
        unique_keys(xs),
    ensures
        unique_keys(upsert_all(s, xs)),
        forall|i: int| 0 <= i < xs.len() ==> upsert_all(s, xs).contains(#[trigger] xs[i]),
    decreases xs.len(),
{
    if xs.len() > 0 {
        let prev = xs.drop_last();
        assert(unique_keys(prev)) by {
            assert forall|a: int, b: int| 0 <= a < b < prev.len() implies prev[a].key()
                != prev[b].key() by {
                assert(prev[a] == xs[a] && prev[b] == xs[b]);
            }
        }
        lemma_upsert_all(s, prev);
        let w = upsert_all(s, prev);
        let x = xs.last();
        lemma_upsert_unique(w, x);
        assert forall|i: int| 0 <= i < xs.len() implies upsert_all(s, xs).contains(
            #[trigger] xs[i],
        ) by {
            if i < xs.len() - 1 {
                assert(prev[i] == xs[i]);
                assert(w.contains(prev[i]));
                assert(xs[i].key() != x.key()) by {
                    assert(xs[xs.len() - 1] == x);
                }
            } else {
                assert(xs[i] == x);
                let u = upsert(w, x);
                assert(u[u.len() - 1] == x);
            }
        }
    }
}

/// A row in memory whose contents carry a key, and which can be told apart
/// by a key held in memory.
pub trait KeyedRow: Sized {
    type Key;
    type Row: Keyed<Self::Key>;
    type KeyText;

    /// The contents of the row.
    spec fn row(&self) -> Self::Row;

    /// The key that a key in memory stands for.
    spec fn key_of(k: &Self::KeyText) -> Self::Key;

    /// Whether this row has the key `key`.
    fn key_is(&self, key: &Self::KeyText) -> (b: bool)
        ensures
            b == (self.row().key() == Self::key_of(key)),
    ;
}

/// The contents of a table in memory.
pub open spec fn rows_of<T: KeyedRow>(s: Seq<T>) -> Seq<T::Row> {
    s.map_values(|x: T| x.row())
}

/// The position of the first row with the key `key`, if there is one.
pub fn find_row<T: KeyedRow>(table: &Vec<T>, key: &T::KeyText) -> (r: Option<usize>)
    ensures
        match r {
            Some(j) => j < table@.len() && rows_of(table@)[j as int].key() == T::key_of(key),
            None => !has_key(rows_of(table@), T::key_of(key)),
        },
{
    let mut j: usize = 0;
    while j < table.len()
        invariant
            j <= table.len(),
            forall|i: int| 0 <= i < j ==> #[trigger] table@[i].row().key() != T::key_of(key),
        decreases table.len() - j,
    {
        if table[j].key_is(key) {
            return Some(j);
        }
        j = j + 1;
    }
    proof {
        let v = rows_of(table@);
        if has_key(v, T::key_of(key)) {
            let i = choose|i: int| 0 <= i < v.len() && v[i].key() == T::key_of(key);
            assert(v[i] == table@[i].row());
        }
    }
    None
}

/// Writes `row` into a table with unique keys: the row with the same key
/// goes, `row` comes last.
pub fn upsert_row<T: KeyedRow>(table: &mut Vec<T>, key: &T::KeyText, row: T)
    requires
        unique_keys(rows_of(old(table)@)),
        row.row().key() == T::key_of(key),
    ensures
        rows_of(final(table)@) == upsert(rows_of(old(table)@), row.row()),
        unique_keys(rows_of(final(table)@)),
{
    let ghost before = rows_of(table@);
    let ghost x = row.row();
    proof {
        lemma_upsert_unique(before, x);
    }
    match find_row(table, key) {
        Some(j) => {
            proof {
                lemma_without_at(before, j as int);
            }
            let ghost pre = table@;
            table.remove(j);
            assert(rows_of(table@) =~= rows_of(pre).remove(j as int));
        },
        None => {
            proof {
                lemma_without_absent(before, x.key());
            }
        },
    }
    let ghost pre = table@;
    table.push(row);
    assert(rows_of(table@) =~= rows_of(pre).push(x));
}

/// Deletes the row with the key `key` from a table with unique keys, if
/// there is one.
pub fn remove_row<T: KeyedRow>(table: &mut Vec<T>, key: &T::KeyText)
    requires
        unique_keys(rows_of(old(table)@)),
    ensures
        rows_of(final(table)@) == without_key(rows_of(old(table)@), T::key_of(key)),
{
    let ghost before = rows_of(table@);
    match find_row(table, key) {
        Some(j) => {
            proof {
                lemma_without_at(before, j as int);
            }
            let ghost pre = table@;
            table.remove(j);
            assert(rows_of(table@) =~= rows_of(pre).remove(j as int));
        },
        None => {
            proof {
                lemma_without_absent(before, T::key_of(key));
            }
        },
    }
}

} // verus!
