use vstd::prelude::*;

verus! {

/// A table keyed by strings, viewed as a sequence of keys with values.
pub open spec fn table_view<W: View>(v: Seq<(String, W)>) -> Seq<(Seq<char>, W::V)> {
    v.map_values(|e: (String, W)| (e.0@, e.1@))
}

/// No key occurs twice.
pub open spec fn keys_distinct<V>(s: Seq<(Seq<char>, V)>) -> bool {
    forall|i: int, j: int| 0 <= i < j < s.len() ==> s[i].0 != s[j].0
}

pub open spec fn has_key<V>(s: Seq<(Seq<char>, V)>, k: Seq<char>) -> bool {
    exists|i: int| 0 <= i < s.len() && s[i].0 == k
}

/// The position of a key, meaningful where `has_key` holds.
pub open spec fn key_pos<V>(s: Seq<(Seq<char>, V)>, k: Seq<char>) -> int {
    choose|i: int| 0 <= i < s.len() && s[i].0 == k
}

/// With distinct keys, a position that holds a key is the key's position.
pub proof fn lemma_key_pos_unique<V>(s: Seq<(Seq<char>, V)>, k: Seq<char>, i: int)
    requires
        keys_distinct(s),
        0 <= i < s.len(),
        s[i].0 == k,
    ensures
        has_key(s, k),
        key_pos(s, k) == i,
{
    let c = key_pos(s, k);
    assert(0 <= c < s.len() && s[c].0 == k);
    if c < i {
        assert(s[c].0 != s[i].0);
    }
    if i < c {
        assert(s[i].0 != s[c].0);
    }
}

/// The position of `key` in a table with distinct keys, if it is there.
pub fn find_key<W: View>(v: &Vec<(String, W)>, key: &String) -> (r: Option<usize>)
    requires
        keys_distinct(table_view(v@)),
    ensures
        match r {
            Some(i) => i < v@.len() && has_key(table_view(v@), key@) && key_pos(table_view(v@), key@)
                == i,
            None => !has_key(table_view(v@), key@),
        },
{
    let ghost t = table_view(v@);
    let mut i: usize = 0;
    while i < v.len()
        invariant
            t == table_view(v@),
            keys_distinct(t),
            i <= v@.len(),
            forall|j: int| 0 <= j < i ==> t[j].0 != key@,
        decreases v@.len() - i,
    {
        if v[i].0 == *key {
            proof {
                assert(t[i as int].0 == v@[i as int].0@);
                lemma_key_pos_unique(t, key@, i as int);
            }
            return Some(i);
        }
        i = i + 1;
    }
    None
}

} // verus!
