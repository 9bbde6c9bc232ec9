//! Keys in the order in which they came, with a table that gives the place
//! of each.

use vstd::prelude::*;

verus! {

/// Whether `slots` gives for each of `keys` its place among them, and for
/// nothing else.
pub open spec fn places(slots: Map<Seq<char>, usize>, keys: Seq<Seq<char>>) -> bool {
    &&& forall|i: int| 0 <= i < keys.len() ==> slots.contains_key(#[trigger] keys[i]) && slots[keys[i]] == i
    &&& forall|k: Seq<char>| #[trigger]
        slots.contains_key(k) ==> slots[k] < keys.len() && keys[slots[k] as int] == k
}

/// Where the table says that a key stands is the first place where it
/// stands, and keys with such a table do not repeat.
pub proof fn lemma_place(slots: Map<Seq<char>, usize>, keys: Seq<Seq<char>>, key: Seq<char>)
    requires
        places(slots, keys),
    ensures
        keys.no_duplicates(),
        keys.index_of_first(key) == if slots.contains_key(key) {
            Some(slots[key] as int)
        } else {
            None
        },
{
    keys.index_of_first_ensures(key);
    if slots.contains_key(key) {
        let i = slots[key] as int;
        assert(keys[i] == key);
        assert(keys.contains(key));
        let j = keys.index_of_first(key).unwrap();
        assert(keys[j] == key);
    } else if keys.contains(key) {
        let j = choose|j: int| 0 <= j < keys.len() && keys[j] == key;
        assert(slots.contains_key(keys[j]));
    }
}

/// Where a key comes behind keys among which it does not stand, it is found
/// at the end, and every other key where it was.
pub proof fn lemma_first_after_push(keys: Seq<Seq<char>>, x: Seq<char>, u: Seq<char>)
    requires
        !keys.contains(x),
    ensures
        keys.push(x).index_of_first(u) == if u == x {
            Some(keys.len() as int)
        } else {
            keys.index_of_first(u)
        },
        keys.push(x).contains(u) <==> keys.contains(u) || u == x,
        keys.no_duplicates() ==> keys.push(x).no_duplicates(),
{
    let after = keys.push(x);
    keys.index_of_first_ensures(u);
    after.index_of_first_ensures(u);
    assert(after[keys.len() as int] == x);
    if u == x {
        assert(after.contains(u));
        let j = after.index_of_first(u).unwrap();
        if j < keys.len() {
            assert(keys[j] == u);
        }
    } else if keys.contains(u) {
        let j = keys.index_of_first(u).unwrap();
        assert(after[j] == u);
        assert(after.contains(u));
        let k = after.index_of_first(u).unwrap();
        if k < j {
            assert(keys[k] == u);
        }
    } else if after.contains(u) {
        let k = after.index_of_first(u).unwrap();
        assert(keys[k] == u);
    }
}

} // verus!
