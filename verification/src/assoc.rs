//! Association lists keyed by strings: the library's maps from names to values.
//!
//! A list of `(key, value)` pairs stands for a map; inserting a key that is
//! already present replaces its value in place, as a map insert would.
use vstd::prelude::*;

use crate::text::str_eq;

verus! {

/// The first position at which `s` holds `x`.
pub open spec fn first_position(s: Seq<Seq<char>>, x: Seq<char>) -> Option<int>
    decreases s.len(),
{
    if s.len() == 0 {
        None
    } else {
        match first_position(s.drop_last(), x) {
            Some(i) => Some(i),
            None => if s.last() == x {
                Some(s.len() - 1)
            } else {
                None
            },
        }
    }
}

/// `first_position` is the least index that holds `x`, or `None` if there is none.
pub proof fn lemma_first_position(s: Seq<Seq<char>>, x: Seq<char>)
    ensures
        match first_position(s, x) {
            Some(i) => 0 <= i < s.len() && s[i] == x && forall|j: int| 0 <= j < i ==> s[j] != x,
            None => forall|j: int| 0 <= j < s.len() ==> s[j] != x,
        },
    decreases s.len(),
{
    if s.len() > 0 {
        lemma_first_position(s.drop_last(), x);
        match first_position(s.drop_last(), x) {
            Some(i) => {
                assert forall|j: int| 0 <= j < i implies s[j] != x by {
                    assert(s[j] == s.drop_last()[j]);
                }
            },
            None => {
                assert forall|j: int| 0 <= j < s.len() - 1 implies s[j] != x by {
                    assert(s[j] == s.drop_last()[j]);
                }
            },
        }
    }
}

/// The characterisation of `first_position` determines it.
pub proof fn lemma_first_position_is(s: Seq<Seq<char>>, x: Seq<char>, r: Option<int>)
    requires
        match r {
            Some(i) => 0 <= i < s.len() && s[i] == x && forall|j: int| 0 <= j < i ==> s[j] != x,
            None => forall|j: int| 0 <= j < s.len() ==> s[j] != x,
        },
    ensures
        first_position(s, x) == r,
{
    lemma_first_position(s, x);
    match first_position(s, x) {
        Some(i) => {
            match r {
                Some(i2) => {
                    if i < i2 {
                        assert(s[i] != x);
                    } else if i2 < i {
                        assert(s[i2] != x);
                    }
                },
                None => {
                    assert(s[i] != x);
                },
            }
        },
        None => {
            match r {
                Some(i2) => {
                    assert(s[i2] != x);
                },
                None => {},
            }
        },
    }
}

/// The keys of an association list.
pub open spec fn keys<V>(s: Seq<(Seq<char>, V)>) -> Seq<Seq<char>> {
    s.map_values(|p: (Seq<char>, V)| p.0)
}

/// Where `k` is the key of an association list: its first occurrence.
pub open spec fn key_index<V>(s: Seq<(Seq<char>, V)>, k: Seq<char>) -> Option<int> {
    first_position(keys(s), k)
}

/// No key occurs twice.
pub open spec fn keys_distinct<V>(s: Seq<(Seq<char>, V)>) -> bool {
    forall|i: int, j: int| 0 <= i < j < s.len() ==> s[i].0 != s[j].0
}

/// Map insertion on an association list: the value of a present key is
/// replaced where it stands, an absent key is appended.
pub open spec fn assoc_insert<V>(s: Seq<(Seq<char>, V)>, k: Seq<char>, v: V) -> Seq<(Seq<char>, V)> {
    match key_index(s, k) {
        Some(i) => s.update(i, (k, v)),
        None => s.push((k, v)),
    }
}

/// The value that an association list gives a key (its first occurrence).
pub open spec fn assoc_get<V>(s: Seq<(Seq<char>, V)>, k: Seq<char>) -> Option<V> {
    match key_index(s, k) {
        Some(i) => Some(s[i].1),
        None => None,
    }
}

/// The map that an association list stands for.
pub open spec fn assoc_map<V>(s: Seq<(Seq<char>, V)>) -> Map<Seq<char>, V> {
    Map::new(|k: Seq<char>| key_index(s, k) is Some, |k: Seq<char>| assoc_get(s, k)->0)
}

/// The view of a list of string-keyed pairs.
pub open spec fn pairs_view<V>(v: Seq<(String, V)>) -> Seq<(Seq<char>, V)> {
    v.map_values(|p: (String, V)| (p.0@, p.1))
}

/// `key_index` is the least index with the key, or `None` if there is none.
pub proof fn lemma_key_index<V>(s: Seq<(Seq<char>, V)>, k: Seq<char>)
    ensures
        match key_index(s, k) {
            Some(i) => 0 <= i < s.len() && s[i].0 == k && forall|j: int|
                0 <= j < i ==> s[j].0 != k,
            None => forall|j: int| 0 <= j < s.len() ==> s[j].0 != k,
        },
{
    lemma_first_position(keys(s), k);
    match key_index(s, k) {
        Some(i) => {
            assert(keys(s)[i] == s[i].0);
            assert forall|j: int| 0 <= j < i implies s[j].0 != k by {
                assert(keys(s)[j] == s[j].0);
            }
        },
        None => {
            assert forall|j: int| 0 <= j < s.len() implies s[j].0 != k by {
                assert(keys(s)[j] == s[j].0);
            }
        },
    }
}

/// Inserting keeps keys distinct.
pub proof fn lemma_assoc_insert_distinct<V>(s: Seq<(Seq<char>, V)>, k: Seq<char>, v: V)
    requires
        keys_distinct(s),
    ensures
        keys_distinct(assoc_insert(s, k, v)),
        assoc_map(assoc_insert(s, k, v)) == assoc_map(s).insert(k, v),
{
    lemma_key_index(s, k);
    let t = assoc_insert(s, k, v);
    assert(keys_distinct(t));
    assert forall|q: Seq<char>| #[trigger] key_index(t, q) == (if q == k {
        key_index(t, k)
    } else {
        key_index(s, q)
    }) by {
        lemma_key_index(s, q);
        lemma_key_index(t, q);
        if q != k {
            match key_index(s, q) {
                Some(i) => {
                    assert(t[i].0 == q);
                    lemma_first_position_is(keys(t), q, Some(i));
                },
                None => {
                    assert forall|j: int| 0 <= j < keys(t).len() implies keys(t)[j] != q by {
                        if j < s.len() {
                            assert(t[j].0 == s[j].0 || t[j].0 == k);
                        }
                    }
                    lemma_first_position_is(keys(t), q, None);
                },
            }
        }
    }
    lemma_key_index(t, k);
    let m1 = assoc_map(t);
    let m2 = assoc_map(s).insert(k, v);
    assert forall|q: Seq<char>| m1.dom().contains(q) <==> m2.dom().contains(q) by {
        lemma_key_index(s, q);
        lemma_key_index(t, q);
        if q == k {
            match key_index(s, k) {
                Some(i) => assert(t[i].0 == k),
                None => assert(t[s.len() as int].0 == k),
            }
        } else {
            assert(key_index(t, q) == key_index(s, q));
        }
    }
    assert forall|q: Seq<char>| m1.dom().contains(q) implies m1[q] == m2[q] by {
        lemma_key_index(s, q);
        lemma_key_index(t, q);
        if q == k {
            match key_index(s, k) {
                Some(i) => {
                    lemma_first_position_is(keys(t), k, Some(i));
                },
                None => {
                    assert forall|j: int| 0 <= j < s.len() implies keys(t)[j] != k by {
                        assert(t[j] == s[j]);
                    }
                    lemma_first_position_is(keys(t), k, Some(s.len() as int));
                },
            }
        } else {
            assert(key_index(t, q) == key_index(s, q));
            let i = key_index(s, q)->0;
            assert(t[i] == s[i]);
        }
    }
    assert(m1 =~= m2);
}

/// The view of a list of strings.
pub open spec fn strings_view(v: Seq<String>) -> Seq<Seq<char>> {
    v.map_values(|s: String| s@)
}

/// The view of a list of string pairs.
pub open spec fn string_pairs_view(v: Seq<(String, String)>) -> Seq<(Seq<char>, Seq<char>)> {
    v.map_values(|p: (String, String)| (p.0@, p.1@))
}

/// The position of `x` in `items`: its first occurrence.
pub fn position_of(items: &Vec<String>, x: &str) -> (res: Option<usize>)
    ensures
        res matches Some(i) ==> i < items.len() && first_position(
            strings_view(items@),
            x@,
        ) == Some(i as int),
        res is None ==> first_position(strings_view(items@), x@) is None,
{
    let ghost s = strings_view(items@);
    let mut i: usize = 0;
    while i < items.len()
        invariant
            i <= items.len(),
            s == strings_view(items@),
            forall|j: int| 0 <= j < i ==> s[j] != x@,
        decreases items.len() - i,
    {
        if str_eq(items[i].as_str(), x) {
            proof {
                lemma_first_position_is(s, x@, Some(i as int));
            }
            return Some(i);
        }
        i = i + 1;
    }
    proof {
        lemma_first_position_is(s, x@, None);
    }
    None
}

/// Where `k` is a key of `pairs`: its first occurrence.
pub fn find_key<V>(pairs: &Vec<(String, V)>, k: &str) -> (res: Option<usize>)
    ensures
        res matches Some(i) ==> i < pairs.len() && key_index(pairs_view(pairs@), k@) == Some(
            i as int,
        ),
        res is None ==> key_index(pairs_view(pairs@), k@) is None,
{
    let ghost s = pairs_view(pairs@);
    let mut i: usize = 0;
    while i < pairs.len()
        invariant
            i <= pairs.len(),
            s == pairs_view(pairs@),
            forall|j: int| 0 <= j < i ==> keys(s)[j] != k@,
        decreases pairs.len() - i,
    {
        if str_eq(pairs[i].0.as_str(), k) {
            proof {
                lemma_first_position_is(keys(s), k@, Some(i as int));
            }
            return Some(i);
        }
        i = i + 1;
    }
    proof {
        lemma_first_position_is(keys(s), k@, None);
    }
    None
}

/// Map insertion: replaces the value of `k` where it stands, or appends the pair.
pub fn insert_pair<V>(pairs: &mut Vec<(String, V)>, k: String, v: V)
    ensures
        pairs_view(final(pairs)@) == assoc_insert(pairs_view(old(pairs)@), k@, v),
{
    match find_key(pairs, k.as_str()) {
        Some(i) => {
            let ghost kv = k@;
            pairs.set(i, (k, v));
            assert(pairs_view(pairs@) =~= pairs_view(old(pairs)@).update(i as int, (kv, v)));
        },
        None => {
            pairs.push((k, v));
            assert(pairs_view(pairs@) =~= pairs_view(old(pairs)@).push((k@, v)));
        },
    }
}

/// The object that a list of key/value pairs sets up: the later of two
/// pairs with the same key stands.
pub open spec fn last_wins<V>(s: Seq<(Seq<char>, V)>) -> Map<Seq<char>, V>
    decreases s.len(),
{
    if s.len() == 0 {
        Map::empty()
    } else {
        last_wins(s.drop_last()).insert(s.last().0, s.last().1)
    }
}

/// Setting up `s` then `t` is `t`'s keys over `s`'s.
pub proof fn lemma_last_wins_concat<V>(s: Seq<(Seq<char>, V)>, t: Seq<(Seq<char>, V)>)
    ensures
        last_wins(s + t) == last_wins(s).union_prefer_right(last_wins(t)),
    decreases t.len(),
{
    if t.len() == 0 {
        assert(s + t =~= s);
        assert(last_wins(s).union_prefer_right(last_wins(t)) =~= last_wins(s));
    } else {
        assert((s + t).drop_last() =~= s + t.drop_last());
        assert((s + t).last() == t.last());
        lemma_last_wins_concat(s, t.drop_last());
        assert(last_wins(s + t) =~= last_wins(s).union_prefer_right(last_wins(t)));
    }
}

/// With distinct keys, the object set up is the map of the list.
pub proof fn lemma_last_wins_distinct<V>(s: Seq<(Seq<char>, V)>)
    requires
        keys_distinct(s),
    ensures
        last_wins(s) == assoc_map(s),
    decreases s.len(),
{
    if s.len() == 0 {
        assert(assoc_map(s) =~= Map::<Seq<char>, V>::empty());
    } else {
        let t = s.drop_last();
        let (k, v) = s.last();
        assert(keys_distinct(t));
        lemma_last_wins_distinct(t);
        lemma_key_index(t, k);
        assert(key_index(t, k) is None) by {
            if key_index(t, k) is Some {
                let i = key_index(t, k)->0;
                assert(s[i].0 == k);
            }
        }
        assert(assoc_insert(t, k, v) =~= s);
        lemma_assoc_insert_distinct(t, k, v);
    }
}

/// A key that no pair has is not set up.
pub proof fn lemma_last_wins_absent<V>(s: Seq<(Seq<char>, V)>, k: Seq<char>)
    requires
        forall|i: int| 0 <= i < s.len() ==> #[trigger] s[i].0 != k,
    ensures
        !last_wins(s).dom().contains(k),
    decreases s.len(),
{
    if s.len() > 0 {
        assert forall|i: int| 0 <= i < s.drop_last().len() implies #[trigger] s.drop_last()[i].0 != k by {
            assert(s.drop_last()[i] == s[i]);
        }
        lemma_last_wins_absent(s.drop_last(), k);
    }
}

/// The map of a list with distinct keys holds each of its pairs.
pub proof fn lemma_assoc_map_entry<V>(s: Seq<(Seq<char>, V)>, i: int)
    requires
        keys_distinct(s),
        0 <= i < s.len(),
    ensures
        assoc_map(s).dom().contains(s[i].0),
        assoc_map(s)[s[i].0] == s[i].1,
{
    lemma_key_index(s, s[i].0);
    let j = key_index(s, s[i].0)->0;
    assert(j == i);
}

/// A key that no pair has is not in the map.
pub proof fn lemma_assoc_map_absent<V>(s: Seq<(Seq<char>, V)>, k: Seq<char>)
    requires
        forall|i: int| 0 <= i < s.len() ==> s[i].0 != k,
    ensures
        !assoc_map(s).dom().contains(k),
{
    lemma_key_index(s, k);
}

/// Taking a pair out of a list with distinct keys takes its key out of the map.
pub proof fn lemma_assoc_map_remove<V>(s: Seq<(Seq<char>, V)>, j: int)
    requires
        keys_distinct(s),
        0 <= j < s.len(),
    ensures
        keys_distinct(s.remove(j)),
        assoc_map(s.remove(j)) == assoc_map(s).remove(s[j].0),
{
    let t = s.remove(j);
    assert(keys_distinct(t)) by {
        assert forall|a: int, b: int| 0 <= a < b < t.len() implies t[a].0 != t[b].0 by {
            let a2 = if a < j { a } else { a + 1 };
            let b2 = if b < j { b } else { b + 1 };
            assert(t[a] == s[a2]);
            assert(t[b] == s[b2]);
        }
    }
    let k = s[j].0;
    assert forall|q: Seq<char>|
        assoc_map(t).dom().contains(q) <==> assoc_map(s).remove(k).dom().contains(q) by {
        lemma_key_index(t, q);
        lemma_key_index(s, q);
        if assoc_map(t).dom().contains(q) {
            let i = key_index(t, q)->0;
            let i2 = if i < j { i } else { i + 1 };
            assert(t[i] == s[i2]);
            assert(q != k);
        }
        if assoc_map(s).remove(k).dom().contains(q) {
            let i = key_index(s, q)->0;
            assert(i != j);
            let i2 = if i < j { i } else { i - 1 };
            assert(t[i2] == s[i]);
        }
    }
    assert forall|q: Seq<char>| assoc_map(t).dom().contains(q) implies assoc_map(t)[q] == assoc_map(
        s,
    )[q] by {
        lemma_key_index(t, q);
        let i = key_index(t, q)->0;
        let i2 = if i < j { i } else { i + 1 };
        assert(t[i] == s[i2]);
        lemma_assoc_map_entry(t, i);
        lemma_assoc_map_entry(s, i2);
    }
    assert(assoc_map(t) =~= assoc_map(s).remove(k));
}

} // verus!
