//! Tables keyed by node name: a vector of (name, value) entries, searched
//! from the front, with the names kept distinct where a table stands for a
//! map.
//!
//! A `HashMap` keyed by `String` would give no usable contract here: vstd
//! specifies `HashMap` operations only for key types that obey its key
//! model, it establishes that for integer keys and not for `String`, and
//! stating it for `String` would take an assumption.

use vstd::prelude::*;

verus! {

/// The names of a table's entries, in order.
pub open spec fn names<V>(entries: Seq<(String, V)>) -> Seq<Seq<char>> {
    entries.map_values(|e: (String, V)| e.0@)
}

/// The position of the first entry named `key`, if any.
pub open spec fn first_named(names: Seq<Seq<char>>, key: Seq<char>) -> Option<int> {
    if names.contains(key) {
        Some(choose|i: int| 0 <= i < names.len() && names[i] == key
            && forall|j: int| 0 <= j < i ==> names[j] != key)
    } else {
        None
    }
}

/// The first position of `key` is the smallest one.
pub proof fn lemma_first_named(names: Seq<Seq<char>>, key: Seq<char>, i: int)
    requires
        0 <= i < names.len(),
        names[i] == key,
        forall|j: int| 0 <= j < i ==> names[j] != key,
    ensures
        first_named(names, key) == Some(i),
{
    assert(names.contains(key));
    let k = choose|k: int| 0 <= k < names.len() && names[k] == key
        && forall|j: int| 0 <= j < k ==> names[j] != key;
    assert(0 <= k < names.len() && names[k] == key && forall|j: int| 0 <= j < k ==> names[j] != key);
    if k < i {
        assert(names[k] != key);
    }
    if i < k {
        assert(names[i] != key);
    }
}

/// The smallest position of `key` at or before position `k`.
proof fn earliest(names: Seq<Seq<char>>, key: Seq<char>, k: int) -> (m: int)
    requires
        0 <= k < names.len(),
        names[k] == key,
    ensures
        0 <= m <= k,
        names[m] == key,
        forall|j: int| 0 <= j < m ==> names[j] != key,
    decreases k,
{
    if exists|j: int| 0 <= j < k && names[j] == key {
        let j = choose|j: int| 0 <= j < k && names[j] == key;
        earliest(names, key, j)
    } else {
        k
    }
}

/// A first position, when there is one, holds `key` and no earlier one does.
pub proof fn lemma_first_named_found(names: Seq<Seq<char>>, key: Seq<char>)
    ensures
        first_named(names, key) matches Some(i) ==> {
            &&& 0 <= i < names.len()
            &&& names[i] == key
            &&& forall|j: int| 0 <= j < i ==> names[j] != key
        },
{
    if names.contains(key) {
        let k = choose|k: int| 0 <= k < names.len() && names[k] == key;
        let m = earliest(names, key, k);
        lemma_first_named(names, key, m);
    }
}

/// Where there is no entry named `key`.
pub proof fn lemma_not_named(names: Seq<Seq<char>>, key: Seq<char>)
    requires
        forall|j: int| 0 <= j < names.len() ==> names[j] != key,
    ensures
        first_named(names, key) is None,
{
    if names.contains(key) {
        let k = choose|k: int| 0 <= k < names.len() && names[k] == key;
        assert(names[k] != key);
    }
}

/// Where there is no first position, no position holds `key`.
pub proof fn lemma_not_named_converse(names: Seq<Seq<char>>, key: Seq<char>, k: int)
    requires
        0 <= k < names.len(),
        names[k] == key,
    ensures
        first_named(names, key) is Some,
{
    assert(names.contains(key));
}

/// Finds the first entry named `key`.
pub fn find_entry<V>(entries: &Vec<(String, V)>, key: &String) -> (found: Option<usize>)
    ensures
        found is None <==> first_named(names(entries@), key@) is None,
        found matches Some(i) ==> i < entries@.len() && first_named(names(entries@), key@) == Some(
            i as int,
        ),
{
    let mut i: usize = 0;
    while i < entries.len()
        invariant
            i <= entries@.len(),
            forall|j: int| 0 <= j < i ==> names(entries@)[j] != key@,
        decreases entries.len() - i,
    {
        if entries[i].0 == *key {
            proof {
                lemma_first_named(names(entries@), key@, i as int);
            }
            return Some(i);
        }
        i = i + 1;
    }
    proof {
        lemma_not_named(names(entries@), key@);
    }
    None
}

/// The elements of `v` in the opposite order, so that popping yields them
/// in their original order.
pub fn reversed<T>(v: Vec<T>) -> (r: Vec<T>)
    ensures
        r@ == v@.reverse(),
{
    let ghost all = v@;
    let mut v = v;
    let mut r: Vec<T> = Vec::new();
    while v.len() > 0
        invariant
            all.len() == v@.len() + r@.len(),
            v@ == all.take(v@.len() as int),
            r@ == all.skip(v@.len() as int).reverse(),
        decreases v@.len(),
    {
        let ghost before = v@;
        let x = v.pop().unwrap();
        assert(all.skip(v@.len() as int) =~= seq![x] + all.skip(before.len() as int));
        assert(all.skip(v@.len() as int).reverse() =~= all.skip(before.len() as int).reverse().push(x));
        assert(v@ =~= all.take(v@.len() as int));
        r.push(x);
    }
    assert(all.skip(0) =~= all);
    r
}

} // verus!
