//! Association lists keyed by strings and kept in strictly increasing key
//! order: the ordered maps of the library.

use vstd::prelude::*;
use crate::text::{chars_of, chars_eq, chars_lt, seq_lt, lemma_seq_lt_total, lemma_seq_lt_irreflexive, lemma_seq_lt_transitive, lemma_seq_lt_asymmetric};

verus! {

/// The keys of an association list.
pub open spec fn keys_of<V>(s: Seq<(String, V)>) -> Seq<Seq<char>> {
    s.map_values(|e: (String, V)| e.0@)
}

/// Keys in strictly increasing order (so no key occurs twice).
pub open spec fn strictly_sorted(k: Seq<Seq<char>>) -> bool {
    forall|i: int, j: int| 0 <= i < j < k.len() ==> seq_lt(#[trigger] k[i], #[trigger] k[j])
}

/// The association list is ordered by key.
pub open spec fn is_ordered<V>(s: Seq<(String, V)>) -> bool {
    strictly_sorted(keys_of(s))
}

/// Whether some entry has key `k`.
pub open spec fn has_key<V>(s: Seq<(String, V)>, k: Seq<char>) -> bool {
    exists|i: int| 0 <= i < s.len() && s[i].0@ == k
}

/// In an ordered list, a key occurs at one position only.
pub proof fn lemma_ordered_unique<V>(s: Seq<(String, V)>, i: int, j: int)
    requires
        is_ordered(s),
        0 <= i < s.len(),
        0 <= j < s.len(),
        s[i].0@ == s[j].0@,
    ensures
        i == j,
{
    if i < j {
        assert(seq_lt(keys_of(s)[i], keys_of(s)[j]));
        lemma_seq_lt_irreflexive(s[i].0@);
    } else if j < i {
        assert(seq_lt(keys_of(s)[j], keys_of(s)[i]));
        lemma_seq_lt_irreflexive(s[i].0@);
    }
}

/// The position of `key` in `entries`, if present.
pub fn find_key<V>(entries: &Vec<(String, V)>, key: &str) -> (r: Option<usize>)
    ensures
        r matches Some(i) ==> i < entries@.len() && entries@[i as int].0@ == key@,
        r matches Some(i) ==> forall|j: int| 0 <= j < i ==> entries@[j].0@ != key@,
        r is None ==> !has_key(entries@, key@),
{
    let k = chars_of(key);
    for i in 0..entries.len()
        invariant
            k@ == key@,
            forall|j: int| 0 <= j < i ==> entries@[j].0@ != key@,
    {
        let c = chars_of(entries[i].0.as_str());
        if chars_eq(&c, &k) {
            return Some(i);
        }
    }
    None
}

/// The position at which `key` would be inserted to keep the order: the
/// first position whose key is larger.
pub fn insertion_point<V>(entries: &Vec<(String, V)>, key: &str) -> (r: usize)
    requires
        is_ordered(entries@),
        !has_key(entries@, key@),
    ensures
        r <= entries@.len(),
        forall|j: int| 0 <= j < r ==> seq_lt(#[trigger] entries@[j].0@, key@),
        forall|j: int| r <= j < entries@.len() ==> seq_lt(key@, #[trigger] entries@[j].0@),
{
    let k = chars_of(key);
    let mut i: usize = 0;
    while i < entries.len()
        invariant
            k@ == key@,
            i <= entries@.len(),
            is_ordered(entries@),
            !has_key(entries@, key@),
            forall|j: int| 0 <= j < i ==> seq_lt(#[trigger] entries@[j].0@, key@),
        decreases entries@.len() - i,
    {
        let c = chars_of(entries[i].0.as_str());
        if chars_lt(&k, &c) {
            proof {
                assert forall|j: int| i <= j < entries@.len() implies seq_lt(key@, #[trigger] entries@[j].0@) by {
                    if j > i {
                        assert(seq_lt(keys_of(entries@)[i as int], keys_of(entries@)[j]));
                        lemma_seq_lt_transitive(key@, entries@[i as int].0@, entries@[j].0@);
                    }
                }
            }
            return i;
        }
        proof {
            assert(entries@[i as int].0@ != key@);
            lemma_seq_lt_total(key@, entries@[i as int].0@);
        }
        i = i + 1;
    }
    i
}

/// Inserting at the insertion point keeps the list ordered.
pub proof fn lemma_insert_ordered<V>(s: Seq<(String, V)>, pos: int, e: (String, V))
    requires
        is_ordered(s),
        0 <= pos <= s.len(),
        forall|j: int| 0 <= j < pos ==> seq_lt(#[trigger] s[j].0@, e.0@),
        forall|j: int| pos <= j < s.len() ==> seq_lt(e.0@, #[trigger] s[j].0@),
    ensures
        is_ordered(s.insert(pos, e)),
{
    let t = s.insert(pos, e);
    assert forall|i: int, j: int| 0 <= i < j < t.len() implies seq_lt(
        #[trigger] keys_of(t)[i],
        #[trigger] keys_of(t)[j],
    ) by {
        if j < pos {
            assert(seq_lt(keys_of(s)[i], keys_of(s)[j]));
        } else if j == pos {
        } else if i < pos {
            lemma_seq_lt_transitive(s[i].0@, e.0@, s[j - 1].0@);
        } else if i == pos {
        } else {
            assert(seq_lt(keys_of(s)[i - 1], keys_of(s)[j - 1]));
        }
    }
}

/// Replacing the value of an entry (keeping its key) keeps the order.
pub proof fn lemma_update_ordered<V>(s: Seq<(String, V)>, pos: int, e: (String, V))
    requires
        is_ordered(s),
        0 <= pos < s.len(),
        e.0@ == s[pos].0@,
    ensures
        is_ordered(s.update(pos, e)),
{
    let t = s.update(pos, e);
    assert forall|i: int, j: int| 0 <= i < j < t.len() implies seq_lt(
        #[trigger] keys_of(t)[i],
        #[trigger] keys_of(t)[j],
    ) by {
        assert(seq_lt(keys_of(s)[i], keys_of(s)[j]));
    }
}

/// Inserts or replaces the entry for `key`, keeping the order.
pub fn insert_entry<V>(entries: &mut Vec<(String, V)>, key: String, value: V) -> (r: usize)
    requires
        is_ordered(old(entries)@),
    ensures
        is_ordered(final(entries)@),
        r < final(entries)@.len(),
        final(entries)@[r as int].0@ == key@,
        final(entries)@[r as int].1 == value,
        has_key(old(entries)@, key@) ==> r < old(entries)@.len() && final(entries)@.len() == old(entries)@.len()
            && old(entries)@[r as int].0@ == key@,
        !has_key(old(entries)@, key@) ==> r <= old(entries)@.len() && final(entries)@.len() == old(entries)@.len() + 1,
        has_key(old(entries)@, key@) ==> final(entries)@ == old(entries)@.update(r as int, (key, value)),
        !has_key(old(entries)@, key@) ==> final(entries)@ == old(entries)@.insert(r as int, (key, value)),
{
    match find_key(entries, key.as_str()) {
        Some(i) => {
            proof {
                lemma_update_ordered(entries@, i as int, (key, value));
            }
            entries.set(i, (key, value));
            i
        },
        None => {
            let pos = insertion_point(entries, key.as_str());
            proof {
                lemma_insert_ordered(entries@, pos as int, (key, value));
            }
            entries.insert(pos, (key, value));
            pos
        },
    }
}

} // verus!

verus! {

/// The value stored under `k` in a list of (key, value) models, if any.
pub open spec fn lookup<V>(s: Seq<(Seq<char>, V)>, k: Seq<char>) -> Option<V> {
    if exists|i: int| 0 <= i < s.len() && s[i].0 == k {
        Some(s[choose|i: int| 0 <= i < s.len() && s[i].0 == k].1)
    } else {
        None
    }
}

/// The models of the entries of an association list.
pub open spec fn entries_view<X: View>(s: Seq<(String, X)>) -> Seq<(Seq<char>, X::V)> {
    s.map_values(|e: (String, X)| (e.0@, e.1@))
}

/// Looking up a key that sits at position `i` of an ordered list.
pub proof fn lemma_lookup_at<V>(s: Seq<(Seq<char>, V)>, i: int)
    requires
        0 <= i < s.len(),
        forall|a: int, b: int| 0 <= a < b < s.len() ==> s[a].0 != s[b].0,
    ensures
        lookup(s, s[i].0) == Some(s[i].1),
{
    let j = choose|j: int| 0 <= j < s.len() && s[j].0 == s[i].0;
    if j != i {
        if j < i {
            assert(s[j].0 != s[i].0);
        } else {
            assert(s[i].0 != s[j].0);
        }
    }
}

} // verus!

verus! {

/// In an ordered list, looking up the key at position `i` gives its value.
pub proof fn lemma_lookup_view<X: View>(s: Seq<(String, X)>, i: int)
    requires
        is_ordered(s),
        0 <= i < s.len(),
    ensures
        lookup(entries_view(s), s[i].0@) == Some(s[i].1@),
{
    let v = entries_view(s);
    assert(v[i].0 == s[i].0@);
    let j = choose|j: int| 0 <= j < v.len() && v[j].0 == s[i].0@;
    assert(v[j].0 == s[j].0@);
    lemma_ordered_unique(s, i, j);
}

/// Looking up a key that is absent gives nothing.
pub proof fn lemma_lookup_view_none<X: View>(s: Seq<(String, X)>, k: Seq<char>)
    requires
        !has_key(s, k),
    ensures
        lookup(entries_view(s), k) is None,
{
    let v = entries_view(s);
    if exists|j: int| 0 <= j < v.len() && v[j].0 == k {
        let j = choose|j: int| 0 <= j < v.len() && v[j].0 == k;
        assert(s[j].0@ == k);
    }
}

/// Inserting or replacing an entry changes the lookup of its key only.
pub proof fn lemma_lookup_after_put<X: View>(s: Seq<(String, X)>, t: Seq<(String, X)>, pos: int, e: (String, X))
    requires
        is_ordered(s),
        is_ordered(t),
        0 <= pos < t.len(),
        t[pos] == e,
        (has_key(s, e.0@) && pos < s.len() && s[pos].0@ == e.0@ && t == s.update(pos, e)) || (!has_key(s, e.0@) && pos <= s.len() && t == s.insert(pos, e)),
    ensures
        lookup(entries_view(t), e.0@) == Some(e.1@),
        forall|k2: Seq<char>| k2 != e.0@ ==> lookup(entries_view(t), k2) == lookup(entries_view(s), k2),
{
    lemma_lookup_view(t, pos);
    assert forall|k2: Seq<char>| k2 != e.0@ implies lookup(entries_view(t), k2) == lookup(entries_view(s), k2) by {
        if has_key(t, k2) {
            let i = choose|i: int| 0 <= i < t.len() && t[i].0@ == k2;
            lemma_lookup_view(t, i);
            assert(i != pos);
            let i2 = if has_key(s, e.0@) || i < pos { i } else { i - 1 };
            if has_key(s, e.0@) { assert(t.len() == s.len()); } else { assert(t.len() == s.len() + 1); }
            assert(s[i2] == t[i]);
            lemma_lookup_view(s, i2);
        } else {
            lemma_lookup_view_none(t, k2);
            if has_key(s, k2) {
                let i = choose|i: int| 0 <= i < s.len() && s[i].0@ == k2;
                if has_key(s, e.0@) { assert(t.len() == s.len()); } else { assert(t.len() == s.len() + 1); }
                let i2 = if has_key(s, e.0@) || i < pos { i } else { i + 1 };
                if has_key(s, e.0@) && i == pos { assert(s[i].0@ == e.0@); }
                assert(t[i2] == s[i]);
            }
            lemma_lookup_view_none(s, k2);
        }
    }
}

} // verus!

verus! {

/// Puts `(k, v)` into a list of models: replaces the first entry with key
/// `k` met before any larger key, or inserts before the first larger key,
/// or appends. On an ordered list this is the ordered map insertion.
pub open spec fn put<V>(s: Seq<(Seq<char>, V)>, k: Seq<char>, v: V) -> Seq<(Seq<char>, V)>
    decreases s.len(),
{
    if s.len() == 0 {
        seq![(k, v)]
    } else if s[0].0 == k {
        seq![(k, v)] + s.drop_first()
    } else if seq_lt(k, s[0].0) {
        seq![(k, v)] + s
    } else {
        seq![s[0]] + put(s.drop_first(), k, v)
    }
}

/// The position where `put` places its entry, and whether it replaces.
pub open spec fn put_position<V>(s: Seq<(Seq<char>, V)>, k: Seq<char>) -> (int, bool)
    decreases s.len(),
{
    if s.len() == 0 {
        (0, false)
    } else if s[0].0 == k {
        (0, true)
    } else if seq_lt(k, s[0].0) {
        (0, false)
    } else {
        let (p, r) = put_position(s.drop_first(), k);
        (p + 1, r)
    }
}

/// Putting a key larger than every key present appends its entry.
pub proof fn lemma_put_append<V>(s: Seq<(Seq<char>, V)>, k: Seq<char>, v: V)
    requires
        forall|j: int| 0 <= j < s.len() ==> seq_lt(#[trigger] s[j].0, k),
    ensures
        put(s, k, v) == s.push((k, v)),
{
    lemma_put_shape(s, k, v);
    let (p, r) = put_position(s, k);
    if p < s.len() {
        assert(seq_lt(s[p].0, k));
        if r {
            lemma_seq_lt_irreflexive(k);
        } else {
            lemma_seq_lt_asymmetric(s[p].0, k);
        }
    }
    assert(s.insert(s.len() as int, (k, v)) =~= s.push((k, v)));
}

/// `put` as a sequence update or insertion at `put_position`.
pub proof fn lemma_put_shape<V>(s: Seq<(Seq<char>, V)>, k: Seq<char>, v: V)
    ensures
        ({
            let (p, r) = put_position(s, k);
            &&& 0 <= p <= s.len()
            &&& r ==> p < s.len() && s[p].0 == k && put(s, k, v) == s.update(p, (k, v))
            &&& !r ==> put(s, k, v) == s.insert(p, (k, v))
            &&& !r && p < s.len() ==> seq_lt(k, s[p].0) && s[p].0 != k
            &&& forall|j: int| 0 <= j < p ==> s[j].0 != k && !seq_lt(k, s[j].0)
        }),
    decreases s.len(),
{
    if s.len() > 0 && s[0].0 != k && !seq_lt(k, s[0].0) {
        lemma_put_shape(s.drop_first(), k, v);
        let (p, r) = put_position(s.drop_first(), k);
        if r {
            assert(put(s, k, v) =~= s.update(p + 1, (k, v)));
        } else {
            assert(put(s, k, v) =~= s.insert(p + 1, (k, v)));
        }
        assert forall|j: int| 0 <= j < p + 1 implies s[j].0 != k && !seq_lt(k, s[j].0) by {
            if j > 0 {
                assert(s[j] == s.drop_first()[j - 1]);
            }
        }
    } else if s.len() > 0 && s[0].0 == k {
        assert(put(s, k, v) =~= s.update(0, (k, v)));
    } else {
        assert(put(s, k, v) =~= s.insert(0, (k, v)));
    }
}

/// Puts `(key, value)` into the list as `put` describes.
pub fn put_entry<X: View>(entries: &mut Vec<(String, X)>, key: String, value: X)
    ensures
        entries_view(final(entries)@) == put(entries_view(old(entries)@), key@, value@),
{
    let ghost m = entries_view(entries@);
    let ghost kv = key@;
    let ghost vv = value@;
    proof { lemma_put_shape(m, key@, value@); }
    let k = chars_of(key.as_str());
    let mut i: usize = 0;
    while i < entries.len()
        invariant
            k@ == key@,
            kv == key@,
            vv == value@,
            m == entries_view(entries@),
            m.len() == entries@.len(),
            i <= put_position(m, key@).0,
            ({
                let (p, r) = put_position(m, key@);
                &&& 0 <= p <= m.len()
                &&& r ==> p < m.len() && m[p].0 == key@ && put(m, key@, value@) == m.update(p, (key@, value@))
                &&& !r ==> put(m, key@, value@) == m.insert(p, (key@, value@))
                &&& !r && p < m.len() ==> seq_lt(key@, m[p].0) && m[p].0 != key@
                &&& forall|j: int| 0 <= j < p ==> m[j].0 != key@ && !seq_lt(key@, m[j].0)
            }),
            m == entries_view(old(entries)@),
        decreases entries@.len() - i,
    {
        let c = chars_of(entries[i].0.as_str());
        assert(m[i as int].0 == entries@[i as int].0@);
        if chars_eq(&c, &k) {
            proof {
                let (p, r) = put_position(m, key@);
                if (i as int) < p { assert(m[i as int].0 != key@); }
                assert(p == i);
                if !r { assert(m.insert(p, (key@, value@))[p + 1].0 == key@); }
            }
            let ghost before = entries@;
            entries.set(i, (key, value));
            proof {
                assert(entries@ == before.update(i as int, entries@[i as int]));
                assert(entries@[i as int].0@ == kv);
                assert(entries@[i as int].1@ == vv);
                assert forall|j: int| 0 <= j < entries@.len() implies #[trigger] entries_view(entries@)[j] == m.update(i as int, (kv, vv))[j] by {
                    if j != i {
                        assert(entries@[j] == before[j]);
                    }
                }
                assert(entries_view(entries@) =~= m.update(i as int, (kv, vv)));
            }
            return;
        }
        if chars_lt(&k, &c) {
            proof {
                let (p, r) = put_position(m, key@);
                if (i as int) < p { assert(!seq_lt(key@, m[i as int].0)); }
                assert(p == i);
            }
            entries.insert(i, (key, value));
            proof {
                let (p, r) = put_position(m, kv);
                if r { assert(m[p].0 == kv); lemma_seq_lt_irreflexive(kv); }
                assert(entries_view(entries@) =~= m.insert(i as int, (kv, vv)));
            }
            return;
        }
        proof {
            let (p, r) = put_position(m, key@);
            if p == i as int {
                if r { assert(m[p].0 == key@); }
                else if (i as int) < m.len() {
                    assert(m.insert(p, (key@, value@))[p] == (key@, value@));
                }
            }
        }
        i = i + 1;
    }
    proof {
        let (p, r) = put_position(m, key@);
        assert(p == m.len());
    }
    entries.push((key, value));
    proof {
        assert(entries_view(entries@) =~= m.insert(m.len() as int, (kv, vv)));
    }
}

} // verus!

verus! {

/// The value of the first entry with key `k`, if any.
pub open spec fn first_lookup<V>(s: Seq<(Seq<char>, V)>, k: Seq<char>) -> Option<V>
    decreases s.len(),
{
    if s.len() == 0 {
        None
    } else if s[0].0 == k {
        Some(s[0].1)
    } else {
        first_lookup(s.drop_first(), k)
    }
}

/// `first_lookup` finds the first entry with the key.
pub proof fn lemma_first_lookup<V>(s: Seq<(Seq<char>, V)>, k: Seq<char>, i: int)
    requires
        0 <= i <= s.len(),
        forall|j: int| 0 <= j < i ==> s[j].0 != k,
        i < s.len() ==> s[i].0 == k,
    ensures
        first_lookup(s, k) == if i < s.len() { Some(s[i].1) } else { None::<V> },
    decreases s.len(),
{
    if s.len() > 0 && i > 0 {
        assert forall|j: int| 0 <= j < i - 1 implies s.drop_first()[j].0 != k by {
            assert(s.drop_first()[j] == s[j + 1]);
        }
        lemma_first_lookup(s.drop_first(), k, i - 1);
    }
}

/// The first entry of `entries` with key `key`, if any.
pub fn get_first<'a, X: View>(entries: &'a Vec<(String, X)>, key: &str) -> (r: Option<&'a X>)
    ensures
        match r {
            Some(x) => first_lookup(entries_view(entries@), key@) == Some(x@),
            None => first_lookup(entries_view(entries@), key@) is None,
        },
{
    match find_key(entries, key) {
        Some(i) => {
            proof {
                assert forall|j: int| 0 <= j < i implies entries_view(entries@)[j].0 != key@ by {}
                lemma_first_lookup(entries_view(entries@), key@, i as int);
            }
            Some(&entries[i].1)
        },
        None => {
            proof {
                assert forall|j: int| 0 <= j < entries@.len() implies entries_view(entries@)[j].0 != key@ by {
                    if entries_view(entries@)[j].0 == key@ { assert(entries@[j].0@ == key@); }
                }
                lemma_first_lookup(entries_view(entries@), key@, entries@.len() as int);
            }
            None
        },
    }
}

} // verus!

verus! {

/// On an ordered list, the unique-key lookup and the first-entry lookup
/// agree.
pub proof fn lemma_lookup_first<X: View>(s: Seq<(String, X)>, k: Seq<char>)
    requires
        is_ordered(s),
    ensures
        lookup(entries_view(s), k) == first_lookup(entries_view(s), k),
{
    let v = entries_view(s);
    if has_key(s, k) {
        let i = choose|i: int| 0 <= i < s.len() && s[i].0@ == k;
        lemma_lookup_view(s, i);
        assert forall|j: int| 0 <= j < i implies v[j].0 != k by {
            if v[j].0 == k {
                lemma_ordered_unique(s, i, j);
            }
        }
        lemma_first_lookup(v, k, i);
    } else {
        lemma_lookup_view_none(s, k);
        assert forall|j: int| 0 <= j < v.len() implies v[j].0 != k by {
            if v[j].0 == k { assert(s[j].0@ == k); }
        }
        lemma_first_lookup(v, k, v.len() as int);
    }
}

} // verus!

verus! {

/// A list of (key, value) models whose keys strictly increase.
pub open spec fn sorted_model<V>(s: Seq<(Seq<char>, V)>) -> bool {
    forall|i: int, j: int| 0 <= i < j < s.len() ==> seq_lt(#[trigger] s[i].0, #[trigger] s[j].0)
}

/// In a sorted list no key occurs twice.
pub proof fn lemma_sorted_distinct<V>(s: Seq<(Seq<char>, V)>)
    requires
        sorted_model(s),
    ensures
        forall|a: int, b: int| 0 <= a < b < s.len() ==> s[a].0 != s[b].0,
{
    assert forall|a: int, b: int| 0 <= a < b < s.len() implies s[a].0 != s[b].0 by {
        assert(seq_lt(s[a].0, s[b].0));
        if s[a].0 == s[b].0 {
            lemma_seq_lt_irreflexive(s[a].0);
        }
    }
}

/// The models of an ordered association list are sorted.
pub proof fn lemma_entries_view_sorted<X: View>(s: Seq<(String, X)>)
    requires
        is_ordered(s),
    ensures
        sorted_model(entries_view(s)),
{
    let v = entries_view(s);
    assert forall|i: int, j: int| 0 <= i < j < v.len() implies seq_lt(#[trigger] v[i].0, #[trigger] v[j].0) by {
        assert(seq_lt(keys_of(s)[i], keys_of(s)[j]));
    }
}

/// On a sorted list, looking up a key finds its first (and only) entry.
pub proof fn lemma_sorted_lookup_first<V>(s: Seq<(Seq<char>, V)>, k: Seq<char>)
    requires
        sorted_model(s),
    ensures
        lookup(s, k) == first_lookup(s, k),
{
    lemma_sorted_distinct(s);
    if exists|i: int| 0 <= i < s.len() && s[i].0 == k {
        let i = choose|i: int| 0 <= i < s.len() && s[i].0 == k;
        lemma_lookup_at(s, i);
        assert forall|j: int| 0 <= j < i implies s[j].0 != k by {}
        lemma_first_lookup(s, k, i);
    } else {
        lemma_first_lookup(s, k, s.len() as int);
    }
}

/// The value at a key that sits at position `i` of a sorted list.
pub proof fn lemma_sorted_lookup_at<V>(s: Seq<(Seq<char>, V)>, i: int)
    requires
        sorted_model(s),
        0 <= i < s.len(),
    ensures
        lookup(s, s[i].0) == Some(s[i].1),
{
    lemma_sorted_distinct(s);
    lemma_lookup_at(s, i);
}

/// A key that no entry has is looked up as nothing.
pub proof fn lemma_lookup_absent<V>(s: Seq<(Seq<char>, V)>, k: Seq<char>)
    requires
        forall|i: int| 0 <= i < s.len() ==> s[i].0 != k,
    ensures
        lookup(s, k) is None,
{
}

/// Putting a key into a sorted list keeps it sorted, maps the key to the
/// new value and leaves every other key as it was.
pub proof fn lemma_sorted_put<V>(s: Seq<(Seq<char>, V)>, k: Seq<char>, v: V)
    requires
        sorted_model(s),
    ensures
        sorted_model(put(s, k, v)),
        lookup(put(s, k, v), k) == Some(v),
        forall|k2: Seq<char>| k2 != k ==> lookup(put(s, k, v), k2) == lookup(s, k2),
{
    lemma_put_shape(s, k, v);
    let (p, r) = put_position(s, k);
    let t = put(s, k, v);
    lemma_sorted_distinct(s);
    if r {
        assert(t == s.update(p, (k, v)));
        assert forall|i: int, j: int| 0 <= i < j < t.len() implies seq_lt(#[trigger] t[i].0, #[trigger] t[j].0) by {
            assert(seq_lt(s[i].0, s[j].0));
        }
        lemma_sorted_lookup_at(t, p);
        assert forall|k2: Seq<char>| k2 != k implies lookup(t, k2) == lookup(s, k2) by {
            if exists|i: int| 0 <= i < s.len() && s[i].0 == k2 {
                let i = choose|i: int| 0 <= i < s.len() && s[i].0 == k2;
                lemma_sorted_lookup_at(s, i);
                assert(t[i] == s[i]);
                lemma_sorted_lookup_at(t, i);
            } else {
                assert forall|i: int| 0 <= i < t.len() implies t[i].0 != k2 by {
                    if i != p { assert(t[i] == s[i]); }
                }
                lemma_lookup_absent(t, k2);
            }
        }
    } else {
        assert(t == s.insert(p, (k, v)));
        assert forall|j: int| 0 <= j < p implies seq_lt(#[trigger] s[j].0, k) by {
            lemma_seq_lt_total(s[j].0, k);
        }
        assert forall|j: int| p <= j < s.len() implies seq_lt(k, #[trigger] s[j].0) by {
            if j > p {
                assert(seq_lt(s[p].0, s[j].0));
                lemma_seq_lt_transitive(k, s[p].0, s[j].0);
            }
        }
        assert forall|i: int, j: int| 0 <= i < j < t.len() implies seq_lt(#[trigger] t[i].0, #[trigger] t[j].0) by {
            if j < p {
                assert(seq_lt(s[i].0, s[j].0));
            } else if j == p {
                assert(t[i] == s[i]);
            } else if i < p {
                assert(t[i] == s[i]);
                assert(t[j] == s[j - 1]);
                lemma_seq_lt_transitive(s[i].0, k, s[j - 1].0);
            } else if i == p {
                assert(t[j] == s[j - 1]);
            } else {
                assert(seq_lt(s[i - 1].0, s[j - 1].0));
            }
        }
        lemma_sorted_lookup_at(t, p);
        assert forall|k2: Seq<char>| k2 != k implies lookup(t, k2) == lookup(s, k2) by {
            if exists|i: int| 0 <= i < s.len() && s[i].0 == k2 {
                let i = choose|i: int| 0 <= i < s.len() && s[i].0 == k2;
                lemma_sorted_lookup_at(s, i);
                let i2 = if i < p { i } else { i + 1 };
                assert(t[i2] == s[i]);
                lemma_sorted_lookup_at(t, i2);
            } else {
                assert forall|i: int| 0 <= i < t.len() implies t[i].0 != k2 by {
                    if i < p { assert(t[i] == s[i]); } else if i > p { assert(t[i] == s[i - 1]); }
                }
                lemma_lookup_absent(t, k2);
            }
        }
    }
}

/// Appending an entry whose key no entry has: the new key maps to its
/// value, the others are unchanged.
pub proof fn lemma_lookup_push<V>(s: Seq<(Seq<char>, V)>, e: (Seq<char>, V), k: Seq<char>)
    requires
        sorted_model(s.push(e)),
    ensures
        lookup(s.push(e), k) == if k == e.0 { Some(e.1) } else { lookup(s, k) },
{
    let t = s.push(e);
    assert forall|i: int, j: int| 0 <= i < j < s.len() implies seq_lt(#[trigger] s[i].0, #[trigger] s[j].0) by {
        assert(t[i] == s[i] && t[j] == s[j]);
    }
    if k == e.0 {
        lemma_sorted_lookup_at(t, s.len() as int);
    } else if exists|i: int| 0 <= i < s.len() && s[i].0 == k {
        let i = choose|i: int| 0 <= i < s.len() && s[i].0 == k;
        lemma_sorted_lookup_at(s, i);
        assert(t[i] == s[i]);
        lemma_sorted_lookup_at(t, i);
    } else {
        assert forall|i: int| 0 <= i < t.len() implies t[i].0 != k by {
            if i < s.len() { assert(t[i] == s[i]); }
        }
        lemma_lookup_absent(t, k);
    }
}

} // verus!

verus! {

/// Every entry after a put is the new entry or an entry from before.
pub proof fn lemma_put_elements<V>(s: Seq<(Seq<char>, V)>, k: Seq<char>, v: V)
    ensures
        forall|i: int| #![trigger put(s, k, v)[i]] 0 <= i < put(s, k, v).len() ==> put(s, k, v)[i] == (k, v) || exists|j: int|
            0 <= j < s.len() && put(s, k, v)[i] == #[trigger] s[j],
{
    lemma_put_shape(s, k, v);
    let (p, r) = put_position(s, k);
    let t = put(s, k, v);
    assert forall|i: int| #![trigger t[i]] 0 <= i < t.len() implies t[i] == (k, v) || exists|j: int|
        0 <= j < s.len() && t[i] == #[trigger] s[j] by {
        if i != p {
            let j = if r || i < p { i } else { i - 1 };
            assert(t[i] == s[j]);
        }
    }
}

} // verus!

verus! {

/// Law: after putting `(k, v)` into a table, looking `k` up gives `v`, and
/// looking up any other key gives what it gave before.
pub proof fn law_put_then_lookup<V>(s: Seq<(Seq<char>, V)>, k: Seq<char>, v: V)
    ensures
        first_lookup(put(s, k, v), k) == Some(v),
        forall|k2: Seq<char>| k2 != k ==> #[trigger] first_lookup(put(s, k, v), k2) == first_lookup(s, k2),
{
    lemma_put_shape(s, k, v);
    let (p, r) = put_position(s, k);
    let t = put(s, k, v);
    assert forall|j: int| 0 <= j < p implies t[j].0 != k by {
        assert(t[j] == s[j]);
    }
    lemma_first_lookup(t, k, p);
    assert forall|k2: Seq<char>| k2 != k implies #[trigger] first_lookup(t, k2) == first_lookup(s, k2) by {
        if exists|i: int| 0 <= i < s.len() && s[i].0 == k2 {
            let i0 = choose|i: int| 0 <= i < s.len() && s[i].0 == k2;
            let i = first_index_with(s, k2, i0);
            lemma_first_lookup(s, k2, i);
            let i2 = if r || i < p { i } else { i + 1 };
            assert(t[i2] == s[i]);
            assert forall|j: int| 0 <= j < i2 implies t[j].0 != k2 by {
                if j == p && !r {
                } else {
                    let j2 = if r || j < p { j } else { j - 1 };
                    assert(t[j] == s[j2] || (r && j == p));
                }
            }
            lemma_first_lookup(t, k2, i2);
        } else {
            lemma_first_lookup(s, k2, s.len() as int);
            assert forall|j: int| 0 <= j < t.len() implies t[j].0 != k2 by {
                if j != p {
                    let j2 = if r || j < p { j } else { j - 1 };
                    assert(t[j] == s[j2]);
                }
            }
            lemma_first_lookup(t, k2, t.len() as int);
        }
    }
}

/// The first index of key `k`, given that it occurs at `i0`.
proof fn first_index_with<V>(s: Seq<(Seq<char>, V)>, k: Seq<char>, i0: int) -> (i: int)
    requires
        0 <= i0 < s.len(),
        s[i0].0 == k,
    ensures
        0 <= i <= i0,
        s[i].0 == k,
        forall|j: int| 0 <= j < i ==> s[j].0 != k,
    decreases i0,
{
    if exists|j: int| 0 <= j < i0 && s[j].0 == k {
        let j = choose|j: int| 0 <= j < i0 && s[j].0 == k;
        first_index_with(s, k, j)
    } else {
        i0
    }
}

} // verus!
