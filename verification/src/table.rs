//! Keyed rows: the automata store their state records and transition tables
//! as vectors of `(key, value)` rows whose keys are pairwise distinct. This
//! module gives the spec-level reading of such a table (key membership and
//! lookup) and the executable scans the engines share.

use vstd::prelude::*;

verus! {

/// Whether some row of `rows` carries the key `key`.
pub open spec fn has_key<K, V>(rows: Seq<(K, V)>, key: K) -> bool {
    exists|i: int| 0 <= i < rows.len() && rows[i].0 == key
}

/// The index of the row carrying `key`; meaningful only under `has_key`.
pub open spec fn index_of<K, V>(rows: Seq<(K, V)>, key: K) -> int {
    choose|i: int| 0 <= i < rows.len() && rows[i].0 == key
}

/// The value stored under `key`; meaningful only under `has_key`.
pub open spec fn value_of<K, V>(rows: Seq<(K, V)>, key: K) -> V {
    rows[index_of(rows, key)].1
}

/// All keys of the table are pairwise distinct.
pub open spec fn unique_keys<K, V>(rows: Seq<(K, V)>) -> bool {
    forall|i: int, j: int| 0 <= i < j < rows.len() ==> rows[i].0 != rows[j].0
}

/// Under distinct keys, the row that carries a key is the only one, so
/// `index_of` and `value_of` read exactly that row.
pub proof fn lemma_key_at<K, V>(rows: Seq<(K, V)>, i: int)
    requires
        unique_keys(rows),
        0 <= i < rows.len(),
    ensures
        has_key(rows, rows[i].0),
        index_of(rows, rows[i].0) == i,
        value_of(rows, rows[i].0) == rows[i].1,
{
    let key = rows[i].0;
    assert(has_key(rows, key));
    let j = index_of(rows, key);
    assert(0 <= j < rows.len() && rows[j].0 == key);
    if i != j {
        assert(false);
    }
}

/// Replacing the value of the row at index `i` (keeping its key) leaves every
/// other key's reading unchanged.
pub proof fn lemma_update_row<K, V>(rows: Seq<(K, V)>, i: int, v: V)
    requires
        unique_keys(rows),
        0 <= i < rows.len(),
    ensures
        unique_keys(rows.update(i, (rows[i].0, v))),
        forall|k: K| #[trigger] has_key(rows.update(i, (rows[i].0, v)), k) == has_key(rows, k),
        value_of(rows.update(i, (rows[i].0, v)), rows[i].0) == v,
        forall|k: K| k != rows[i].0 && has_key(rows, k)
            ==> #[trigger] value_of(rows.update(i, (rows[i].0, v)), k) == value_of(rows, k),
{
    let r2 = rows.update(i, (rows[i].0, v));
    assert(forall|j: int| 0 <= j < rows.len() ==> #[trigger] r2[j].0 == rows[j].0);
    assert(unique_keys(r2));
    assert forall|k: K| #[trigger] has_key(r2, k) == has_key(rows, k) by {
        if has_key(rows, k) {
            let j = index_of(rows, k);
            assert(r2[j].0 == k);
        }
        if has_key(r2, k) {
            let j = index_of(r2, k);
            assert(rows[j].0 == k);
        }
    }
    lemma_key_at(r2, i);
    assert forall|k: K| k != rows[i].0 && has_key(rows, k)
        implies #[trigger] value_of(r2, k) == value_of(rows, k) by {
        let j = index_of(rows, k);
        lemma_key_at(rows, j);
        lemma_key_at(r2, j);
    }
}

/// Appending a row with a fresh key leaves every other key's reading
/// unchanged.
pub proof fn lemma_push_row<K, V>(rows: Seq<(K, V)>, key: K, v: V)
    requires
        unique_keys(rows),
        !has_key(rows, key),
    ensures
        unique_keys(rows.push((key, v))),
        forall|k: K| #[trigger] has_key(rows.push((key, v)), k) == (has_key(rows, k) || k == key),
        value_of(rows.push((key, v)), key) == v,
        forall|k: K| k != key && has_key(rows, k)
            ==> #[trigger] value_of(rows.push((key, v)), k) == value_of(rows, k),
{
    let r2 = rows.push((key, v));
    assert(forall|j: int| 0 <= j < rows.len() ==> #[trigger] r2[j].0 == rows[j].0);
    assert(r2[rows.len() as int].0 == key);
    assert(unique_keys(r2));
    assert forall|k: K| #[trigger] has_key(r2, k) == (has_key(rows, k) || k == key) by {
        if has_key(rows, k) {
            let j = index_of(rows, k);
            assert(r2[j].0 == k);
        }
        if has_key(r2, k) && k != key {
            let j = index_of(r2, k);
            assert(j < rows.len());
            assert(rows[j].0 == k);
        }
    }
    lemma_key_at(r2, rows.len() as int);
    assert forall|k: K| k != key && has_key(rows, k)
        implies #[trigger] value_of(r2, k) == value_of(rows, k) by {
        let j = index_of(rows, k);
        lemma_key_at(rows, j);
        lemma_key_at(r2, j);
    }
}

/// Taking one more element of a sequence adds exactly that element to the
/// set of elements taken so far.
pub proof fn lemma_take_one_more<T>(s: Seq<T>, i: int)
    requires
        0 <= i < s.len(),
    ensures
        s.take(i + 1).to_set() == s.take(i).to_set().insert(s[i]),
{
    assert forall|x: T| s.take(i + 1).to_set().contains(x) implies s.take(i).to_set().insert(
        s[i],
    ).contains(x) by {
        let j = choose|j: int| 0 <= j < i + 1 && #[trigger] s.take(i + 1)[j] == x;
        if j < i {
            assert(s.take(i)[j] == x);
        }
    }
    assert forall|x: T| s.take(i).to_set().insert(s[i]).contains(x) implies s.take(
        i + 1,
    ).to_set().contains(x) by {
        if s.take(i).to_set().contains(x) {
            let j = choose|j: int| 0 <= j < i && #[trigger] s.take(i)[j] == x;
            assert(s.take(i + 1)[j] == x);
        } else {
            assert(s.take(i + 1)[i] == x);
        }
    }
    assert(s.take(i + 1).to_set() =~= s.take(i).to_set().insert(s[i]));
}

/// Appending an element to a sequence adds exactly that element to its set
/// of elements.
pub proof fn lemma_push_to_set<T>(s: Seq<T>, x: T)
    ensures
        s.push(x).to_set() == s.to_set().insert(x),
{
    assert forall|y: T| s.push(x).to_set().contains(y) implies s.to_set().insert(x).contains(
        y,
    ) by {
        let j = choose|j: int| 0 <= j < s.push(x).len() && #[trigger] s.push(x)[j] == y;
        if j < s.len() {
            assert(s[j] == y);
        }
    }
    assert forall|y: T| s.to_set().insert(x).contains(y) implies s.push(x).to_set().contains(
        y,
    ) by {
        if s.to_set().contains(y) {
            let j = choose|j: int| 0 <= j < s.len() && #[trigger] s[j] == y;
            assert(s.push(x)[j] == y);
        } else {
            assert(s.push(x)[s.len() as int] == y);
        }
    }
    assert(s.push(x).to_set() =~= s.to_set().insert(x));
}

/// Scans a `u64`-keyed table for `key`; returns the index of the first row
/// that carries it.
pub fn find_u64<V>(rows: &Vec<(u64, V)>, key: u64) -> (r: Option<usize>)
    ensures
        match r {
            Some(i) => i < rows@.len() && rows@[i as int].0 == key
                && forall|j: int| 0 <= j < i ==> rows@[j].0 != key,
            None => !has_key(rows@, key),
        },
{
    let mut i: usize = 0;
    while i < rows.len()
        invariant
            i <= rows@.len(),
            forall|j: int| 0 <= j < i ==> rows@[j].0 != key,
        decreases rows@.len() - i,
    {
        if rows[i].0 == key {
            return Some(i);
        }
        i = i + 1;
    }
    None
}

/// Scans a `char`-keyed table for `key`; returns the index of the first row
/// that carries it.
pub fn find_char<V>(rows: &Vec<(char, V)>, key: char) -> (r: Option<usize>)
    ensures
        match r {
            Some(i) => i < rows@.len() && rows@[i as int].0 == key
                && forall|j: int| 0 <= j < i ==> rows@[j].0 != key,
            None => !has_key(rows@, key),
        },
{
    let mut i: usize = 0;
    while i < rows.len()
        invariant
            i <= rows@.len(),
            forall|j: int| 0 <= j < i ==> rows@[j].0 != key,
        decreases rows@.len() - i,
    {
        if rows[i].0 == key {
            return Some(i);
        }
        i = i + 1;
    }
    None
}

/// Whether the vector holds `x`.
pub fn contains_u64(v: &Vec<u64>, x: u64) -> (r: bool)
    ensures
        r == v@.contains(x),
{
    let mut i: usize = 0;
    while i < v.len()
        invariant
            i <= v@.len(),
            forall|j: int| 0 <= j < i ==> v@[j] != x,
        decreases v@.len() - i,
    {
        if v[i] == x {
            return true;
        }
        i = i + 1;
    }
    false
}

/// Copies a vector of identifiers.
pub fn copy_ids(v: &Vec<u64>) -> (r: Vec<u64>)
    ensures
        r@ == v@,
{
    let mut r: Vec<u64> = Vec::new();
    let mut i: usize = 0;
    while i < v.len()
        invariant
            i <= v@.len(),
            r@ == v@.take(i as int),
        decreases v@.len() - i,
    {
        r.push(v[i]);
        assert(r@ =~= v@.take(i as int + 1));
        i = i + 1;
    }
    assert(r@ =~= v@);
    r
}

} // verus!
