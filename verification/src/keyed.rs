//! Tables keyed by text, held as vectors of `(key, value)` entries in
//! insertion order: the first entry of a key is the one that counts.

use vstd::prelude::*;

verus! {

/// The keys of a table, in order, as character sequences.
pub open spec fn keys_of<T>(es: Seq<(String, T)>) -> Seq<Seq<char>> {
    es.map_values(|e: (String, T)| e.0@)
}

/// Index of the first occurrence of `key` in `keys`, or -1 when it does
/// not occur.
pub open spec fn key_index(keys: Seq<Seq<char>>, key: Seq<char>) -> int
    decreases keys.len(),
{
    if keys.len() == 0 {
        -1
    } else if keys[0] == key {
        0
    } else {
        let r = key_index(keys.drop_first(), key);
        if r < 0 {
            -1
        } else {
            r + 1
        }
    }
}

/// `key_index` is the least index holding the key, or -1 when no index
/// holds it.
pub proof fn lemma_key_index(keys: Seq<Seq<char>>, key: Seq<char>)
    ensures
        -1 <= key_index(keys, key) < keys.len(),
        key_index(keys, key) >= 0 ==> keys[key_index(keys, key)] == key,
        key_index(keys, key) < 0 <==> !keys.contains(key),
        forall|j: int|
            0 <= j < keys.len() && (j < key_index(keys, key) || key_index(keys, key) < 0)
                ==> keys[j] != key,
    decreases keys.len(),
{
    if keys.len() > 0 {
        lemma_key_index(keys.drop_first(), key);
        assert forall|j: int|
            0 <= j < keys.len() && (j < key_index(keys, key) || key_index(keys, key) < 0)
                implies keys[j] != key by {
            if j > 0 {
                assert(keys[j] == keys.drop_first()[j - 1]);
            }
        }
        if keys.contains(key) {
            let w = choose|w: int| 0 <= w < keys.len() && keys[w] == key;
            if w > 0 {
                assert(keys.drop_first()[w - 1] == key);
            }
        }
        if key_index(keys, key) >= 0 {
            assert(keys[key_index(keys, key)] == key);
        }
    }
}

/// An index before which no index holds `key` and which holds it (or is
/// the end) is `key_index` (or -1 at the end).
pub proof fn lemma_key_index_at(keys: Seq<Seq<char>>, key: Seq<char>, i: int)
    requires
        0 <= i <= keys.len(),
        forall|j: int| 0 <= j < i ==> keys[j] != key,
        i < keys.len() ==> keys[i] == key,
    ensures
        key_index(keys, key) == (if i < keys.len() {
            i
        } else {
            -1
        }),
{
    lemma_key_index(keys, key);
}

/// Keys of a table with one entry appended.
pub proof fn lemma_keys_of_push<T>(es: Seq<(String, T)>, e: (String, T))
    ensures
        keys_of(es.push(e)) == keys_of(es).push(e.0@),
{
    assert(keys_of(es.push(e)) =~= keys_of(es).push(e.0@));
}

/// Keys of a table with one entry replaced.
pub proof fn lemma_keys_of_update<T>(es: Seq<(String, T)>, i: int, e: (String, T))
    requires
        0 <= i < es.len(),
    ensures
        keys_of(es.update(i, e)) == keys_of(es).update(i, e.0@),
{
    assert(keys_of(es.update(i, e)) =~= keys_of(es).update(i, e.0@));
}

/// The value of the first entry of `key`, if any.
pub open spec fn table_get<T>(es: Seq<(String, T)>, key: Seq<char>) -> Option<T> {
    let i = key_index(keys_of(es), key);
    if i >= 0 {
        Some(es[i].1)
    } else {
        None
    }
}

/// Whether a table has an entry for `key`.
pub open spec fn table_has<T>(es: Seq<(String, T)>, key: Seq<char>) -> bool {
    keys_of(es).contains(key)
}

/// `key_index` after a key is appended.
pub proof fn lemma_key_index_push(keys: Seq<Seq<char>>, x: Seq<char>, key: Seq<char>)
    ensures
        key_index(keys.push(x), key) == (if key_index(keys, key) >= 0 {
            key_index(keys, key)
        } else if x == key {
            keys.len() as int
        } else {
            -1
        }),
{
    lemma_key_index(keys, key);
    let ks = keys.push(x);
    if key_index(keys, key) >= 0 {
        lemma_key_index_at(ks, key, key_index(keys, key));
    } else if x == key {
        lemma_key_index_at(ks, key, keys.len() as int);
    } else {
        lemma_key_index_at(ks, key, ks.len() as int);
    }
}

/// Writes `v` under `k`: replaces the value of the first entry of `k`,
/// or appends an entry when there is none (as a map's `insert`).
pub fn table_insert<T>(es: &mut Vec<(String, T)>, k: String, v: T)
    ensures
        forall|key: Seq<char>|
            #[trigger] table_get(final(es)@, key) == if key == k@ {
                Some(v)
            } else {
                table_get(old(es)@, key)
            },
        forall|key: Seq<char>|
            #[trigger] table_has(final(es)@, key) == (key == k@ || table_has(old(es)@, key)),
        keys_of(old(es)@).no_duplicates() ==> keys_of(final(es)@).no_duplicates(),
{
    let ghost ks = keys_of(es@);
    let ghost kv = k@;
    match find_entry(es, k.as_str()) {
        Some(i) => {
            proof {
                lemma_key_index(ks, kv);
                lemma_keys_of_update(es@, i as int, (k, v));
                assert(ks.update(i as int, kv) =~= ks);
            }
            es.set(i, (k, v));
            proof {
                assert(keys_of(es@) == ks);
                assert forall|key: Seq<char>|
                    #[trigger] table_get(es@, key) == if key == kv {
                        Some(v)
                    } else {
                        table_get(old(es)@, key)
                    } by {
                    lemma_key_index(ks, key);
                }
            }
        },
        None => {
            proof {
                lemma_key_index(ks, kv);
                lemma_keys_of_push(es@, (k, v));
            }
            es.push((k, v));
            proof {
                if ks.no_duplicates() {
                    assert(keys_of(es@).no_duplicates()) by {
                        assert forall|a: int, b: int| 0 <= a < b < keys_of(es@).len() implies keys_of(es@)[a] != keys_of(es@)[b] by {
                            if b == ks.len() {
                                assert(keys_of(es@)[a] == ks[a]);
                            } else {
                                assert(keys_of(es@)[a] == ks[a]);
                                assert(keys_of(es@)[b] == ks[b]);
                            }
                        }
                    }
                }
                assert forall|key: Seq<char>|
                    #[trigger] table_get(es@, key) == if key == kv {
                        Some(v)
                    } else {
                        table_get(old(es)@, key)
                    } by {
                    lemma_key_index_push(ks, kv, key);
                    lemma_key_index(ks, key);
                }
                assert forall|key: Seq<char>|
                    #[trigger] table_has(es@, key) == (key == kv || table_has(old(es)@, key)) by {
                    lemma_key_index_push(ks, kv, key);
                    lemma_key_index(ks, key);
                    lemma_key_index(keys_of(es@), key);
                }
            }
        },
    }
}

/// An optional text as plain characters.
pub open spec fn opt_text(o: Option<&str>) -> Option<Seq<char>> {
    match o {
        Some(s) => Some(s@),
        None => None,
    }
}

/// Whether two texts are equal.
pub fn str_eq(a: &str, b: &str) -> (r: bool)
    ensures
        r == (a@ == b@),
{
    let n = a.unicode_len();
    if n != b.unicode_len() {
        return false;
    }
    let mut i: usize = 0;
    while i < n
        invariant
            n == a@.len(),
            n == b@.len(),
            i <= n,
            forall|j: int| 0 <= j < i ==> a@[j] == b@[j],
        decreases n - i,
    {
        if a.get_char(i) != b.get_char(i) {
            return false;
        }
        i = i + 1;
    }
    assert(a@ =~= b@);
    true
}

/// Index of the first entry of `key` in a table.
pub fn find_entry<T>(es: &Vec<(String, T)>, key: &str) -> (r: Option<usize>)
    ensures
        match r {
            Some(i) => i < es@.len() && key_index(keys_of(es@), key@) == i as int,
            None => key_index(keys_of(es@), key@) == -1,
        },
{
    let ghost ks = keys_of(es@);
    let mut i: usize = 0;
    while i < es.len()
        invariant
            i <= es@.len(),
            ks == keys_of(es@),
            forall|j: int| 0 <= j < i ==> ks[j] != key@,
        decreases es.len() - i,
    {
        if str_eq(es[i].0.as_str(), key) {
            proof {
                lemma_key_index_at(ks, key@, i as int);
            }
            return Some(i);
        }
        i = i + 1;
    }
    proof {
        lemma_key_index_at(ks, key@, i as int);
    }
    None
}

/// Whether a list of texts holds `item`.
pub fn contains_str(items: &Vec<String>, item: &str) -> (r: bool)
    ensures
        r == items@.map_values(|s: String| s@).contains(item@),
{
    let ghost vs = items@.map_values(|s: String| s@);
    let mut i: usize = 0;
    while i < items.len()
        invariant
            i <= items@.len(),
            vs == items@.map_values(|s: String| s@),
            forall|j: int| 0 <= j < i ==> vs[j] != item@,
        decreases items.len() - i,
    {
        if str_eq(items[i].as_str(), item) {
            assert(vs[i as int] == item@);
            return true;
        }
        i = i + 1;
    }
    false
}

/// A copy of a list of texts.
pub fn clone_strings(items: &Vec<String>) -> (r: Vec<String>)
    ensures
        r@ == items@,
{
    let mut r: Vec<String> = Vec::new();
    for i in 0..items.len()
        invariant
            r@ == items@.take(i as int),
    {
        r.push(items[i].clone());
        assert(r@ =~= items@.take(i + 1));
    }
    assert(items@.take(items@.len() as int) =~= items@);
    r
}

/// A copy of a table from text to text.
pub fn clone_string_pairs(items: &Vec<(String, String)>) -> (r: Vec<(String, String)>)
    ensures
        r@ == items@,
{
    let mut r: Vec<(String, String)> = Vec::new();
    for i in 0..items.len()
        invariant
            r@ == items@.take(i as int),
    {
        let k = items[i].0.clone();
        let v = items[i].1.clone();
        r.push((k, v));
        assert(r@ =~= items@.take(i + 1));
    }
    assert(items@.take(items@.len() as int) =~= items@);
    r
}

} // verus!
