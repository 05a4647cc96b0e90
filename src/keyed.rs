//! Lists of entries kept sorted by a byte-string key, with at most one entry per key.
use vstd::prelude::*;

verus! {

/// Lexicographic order on byte strings: a proper prefix comes first.
pub open spec fn lex_lt(a: Seq<u8>, b: Seq<u8>) -> bool
    decreases a.len(),
{
    if a.len() == 0 {
        b.len() > 0
    } else if b.len() == 0 {
        false
    } else if a[0] < b[0] {
        true
    } else if a[0] == b[0] {
        lex_lt(a.drop_first(), b.drop_first())
    } else {
        false
    }
}

pub proof fn lemma_lex_irreflexive(a: Seq<u8>)
    ensures
        !lex_lt(a, a),
    decreases a.len(),
{
    if a.len() > 0 {
        lemma_lex_irreflexive(a.drop_first());
    }
}

pub proof fn lemma_lex_transitive(a: Seq<u8>, b: Seq<u8>, c: Seq<u8>)
    requires
        lex_lt(a, b),
        lex_lt(b, c),
    ensures
        lex_lt(a, c),
    decreases a.len(),
{
    if a.len() > 0 && b.len() > 0 && c.len() > 0 && a[0] == b[0] && b[0] == c[0] {
        lemma_lex_transitive(a.drop_first(), b.drop_first(), c.drop_first());
    }
}

/// The keys of the entries, as byte strings.
pub open spec fn keys_of<V>(s: Seq<(Vec<u8>, V)>) -> Seq<Seq<u8>> {
    s.map_values(|e: (Vec<u8>, V)| e.0@)
}

/// Keys strictly increase along the list.
pub open spec fn sorted_keys(k: Seq<Seq<u8>>) -> bool {
    forall|i: int, j: int| 0 <= i < j < k.len() ==> lex_lt(#[trigger] k[i], #[trigger] k[j])
}

pub open spec fn is_sorted<V>(s: Seq<(Vec<u8>, V)>) -> bool {
    sorted_keys(keys_of(s))
}

/// Entry `i` holds `key`.
pub open spec fn key_at<V>(s: Seq<(Vec<u8>, V)>, i: int, key: Seq<u8>) -> bool {
    0 <= i < s.len() && s[i].0@ == key
}

/// The entry stored under `key`, if there is one.
pub open spec fn lookup<V>(s: Seq<(Vec<u8>, V)>, key: Seq<u8>) -> Option<V> {
    if exists|i: int| key_at(s, i, key) {
        Some(s[choose|i: int| key_at(s, i, key)].1)
    } else {
        None
    }
}

pub proof fn lemma_lookup_at<V>(s: Seq<(Vec<u8>, V)>, i: int)
    requires
        is_sorted(s),
        0 <= i < s.len(),
    ensures
        lookup(s, s[i].0@) == Some(s[i].1),
{
    let k = s[i].0@;
    assert(key_at(s, i, k));
    let j = choose|j: int| key_at(s, j, k);
    if j != i {
        lemma_lex_irreflexive(k);
        assert(keys_of(s)[j] == s[j].0@);
        assert(keys_of(s)[i] == k);
        if j < i {
            assert(lex_lt(keys_of(s)[j], keys_of(s)[i]));
        } else {
            assert(lex_lt(keys_of(s)[i], keys_of(s)[j]));
        }
    }
}

/// Replacing the value of entry `i`, key kept, changes only what `lookup` gives for
/// that key.
pub proof fn lemma_replace_at<V>(o: Seq<(Vec<u8>, V)>, s: Seq<(Vec<u8>, V)>, i: int, value: V)
    requires
        is_sorted(o),
        0 <= i < o.len(),
        s == o.update(i, (o[i].0, value)),
    ensures
        is_sorted(s),
        lookup(s, o[i].0@) == Some(value),
        forall|k: Seq<u8>| k != o[i].0@ ==> lookup(s, k) == lookup(o, k),
{
    let k0 = o[i].0@;
    assert(keys_of(s) =~= keys_of(o));
    lemma_lookup_at(s, i);
    assert forall|k: Seq<u8>| k != k0 implies lookup(s, k) == lookup(o, k) by {
        if exists|j: int| key_at(o, j, k) {
            let j = choose|j: int| key_at(o, j, k);
            lemma_lookup_at(o, j);
            lemma_lookup_at(s, j);
        } else {
            assert forall|j: int| 0 <= j < s.len() implies s[j].0@ != k by {
                if j != i {
                    assert(s[j] == o[j]);
                    assert(!key_at(o, j, k));
                }
            }
        }
    }
}

/// Compares two byte strings: negative, zero or positive as `a` comes before, equals or
/// comes after `b`.
pub fn compare_bytes(a: &Vec<u8>, b: &Vec<u8>) -> (r: i8)
    ensures
        r < 0 <==> lex_lt(a@, b@),
        r == 0 <==> a@ == b@,
        r > 0 <==> lex_lt(b@, a@),
{
    let mut i: usize = 0;
    assert(a@.skip(0) =~= a@);
    assert(b@.skip(0) =~= b@);
    while i < a.len() && i < b.len()
        invariant
            i <= a.len(),
            i <= b.len(),
            a@.subrange(0, i as int) == b@.subrange(0, i as int),
            lex_lt(a@, b@) == lex_lt(a@.skip(i as int), b@.skip(i as int)),
            lex_lt(b@, a@) == lex_lt(b@.skip(i as int), a@.skip(i as int)),
        decreases a.len() - i,
    {
        if a[i] != b[i] {
            proof {
                if a@ == b@ {
                    assert(a@[i as int] == b@[i as int]);
                }
            }
            if a[i] < b[i] {
                return -1;
            } else {
                return 1;
            }
        }
        assert(a@.skip(i as int).drop_first() =~= a@.skip(i + 1));
        assert(b@.skip(i as int).drop_first() =~= b@.skip(i + 1));
        assert(a@.subrange(0, i + 1) =~= a@.subrange(0, i as int).push(a@[i as int]));
        assert(b@.subrange(0, i + 1) =~= b@.subrange(0, i as int).push(b@[i as int]));
        i = i + 1;
    }
    if a.len() == b.len() {
        assert(a@ =~= a@.subrange(0, i as int));
        assert(b@ =~= b@.subrange(0, i as int));
        proof {
            lemma_lex_irreflexive(a@);
        }
        0
    } else if i == a.len() {
        proof {
            if a@ == b@ {
                assert(a@.len() == b@.len());
            }
        }
        -1
    } else {
        proof {
            if a@ == b@ {
                assert(a@.len() == b@.len());
            }
        }
        1
    }
}

/// Where `key` stands in a sorted list: `Ok(i)` when entry `i` holds it, `Err(p)` when it
/// is absent and belongs at position `p`.
pub fn find_slot<V>(entries: &Vec<(Vec<u8>, V)>, key: &Vec<u8>) -> (r: Result<usize, usize>)
    requires
        is_sorted(entries@),
    ensures
        r matches Ok(i) ==> i < entries@.len() && entries@[i as int].0@ == key@,
        r matches Err(p) ==> p <= entries@.len() && lookup(entries@, key@).is_none() && (forall|
            j: int,
        |
            0 <= j < p ==> lex_lt(#[trigger] entries@[j].0@, key@)) && (forall|j: int|
            p <= j < entries@.len() ==> lex_lt(key@, #[trigger] entries@[j].0@)),
{
    let mut i: usize = 0;
    while i < entries.len()
        invariant
            i <= entries@.len(),
            is_sorted(entries@),
            forall|j: int| 0 <= j < i ==> lex_lt(#[trigger] entries@[j].0@, key@),
        decreases entries.len() - i,
    {
        let c = compare_bytes(&entries[i].0, key);
        if c == 0 {
            return Ok(i);
        } else if c > 0 {
            proof {
                assert forall|j: int| i <= j < entries@.len() implies lex_lt(
                    key@,
                    #[trigger] entries@[j].0@,
                ) by {
                    if j > i {
                        assert(lex_lt(keys_of(entries@)[i as int], keys_of(entries@)[j]));
                        lemma_lex_transitive(key@, entries@[i as int].0@, entries@[j].0@);
                    }
                }
                assert forall|j: int| 0 <= j < entries@.len() implies entries@[j].0@ != key@ by {
                    lemma_lex_irreflexive(key@);
                }
            }
            return Err(i);
        }
        i = i + 1;
    }
    proof {
        assert forall|j: int| 0 <= j < entries@.len() implies entries@[j].0@ != key@ by {
            lemma_lex_irreflexive(key@);
        }
    }
    Err(i)
}

/// The entries as a map from key to the view of the value.
pub open spec fn view_map<V: View>(s: Seq<(Vec<u8>, V)>) -> Map<Seq<u8>, V::V> {
    Map::new(|k: Seq<u8>| lookup(s, k).is_some(), |k: Seq<u8>| lookup(s, k).unwrap()@)
}

pub proof fn lemma_view_map_store<V: View>(
    before: Seq<(Vec<u8>, V)>,
    after: Seq<(Vec<u8>, V)>,
    k: Seq<u8>,
    v: V,
)
    requires
        lookup(after, k) == Some(v),
        forall|k2: Seq<u8>| k2 != k ==> lookup(after, k2) == lookup(before, k2),
    ensures
        view_map(after) == view_map(before).insert(k, v@),
{
    assert(view_map(after) =~= view_map(before).insert(k, v@));
}

/// Stores `value` under `key`, replacing an entry with the same key.
pub fn upsert<V>(entries: &mut Vec<(Vec<u8>, V)>, key: Vec<u8>, value: V)
    requires
        is_sorted(old(entries)@),
    ensures
        is_sorted(final(entries)@),
        lookup(final(entries)@, key@) == Some(value),
        forall|k: Seq<u8>| k != key@ ==> lookup(final(entries)@, k) == lookup(old(entries)@, k),
{
    let ghost k0 = key@;
    match find_slot(entries, &key) {
        Ok(i) => {
            entries.set(i, (key, value));
            proof {
                let s = entries@;
                let o = old(entries)@;
                assert(keys_of(s) =~= keys_of(o));
                lemma_lookup_at(s, i as int);
                assert forall|k: Seq<u8>| k != k0 implies lookup(s, k) == lookup(o, k) by {
                    if exists|j: int| key_at(o, j, k) {
                        let j = choose|j: int| key_at(o, j, k);
                        lemma_lookup_at(o, j);
                        lemma_lookup_at(s, j);
                    } else {
                        assert forall|j: int| 0 <= j < s.len() implies s[j].0@ != k by {
                            if j != i {
                                assert(s[j] == o[j]);
                                assert(!key_at(o, j, k));
                            }
                        }
                    }
                }
            }
        },
        Err(p) => {
            entries.insert(p, (key, value));
            proof {
                let s = entries@;
                let o = old(entries)@;
                assert forall|a: int, b: int| 0 <= a < b < s.len() implies lex_lt(
                    #[trigger] keys_of(s)[a],
                    #[trigger] keys_of(s)[b],
                ) by {
                    if b < p {
                        assert(lex_lt(keys_of(o)[a], keys_of(o)[b]));
                    } else if a > p {
                        assert(lex_lt(keys_of(o)[a - 1], keys_of(o)[b - 1]));
                    } else if a < p && b > p {
                        lemma_lex_transitive(o[a].0@, k0, o[b - 1].0@);
                    } else if a < p {
                    } else {
                        assert(s[b] == o[b - 1]);
                    }
                }
                lemma_lookup_at(s, p as int);
                assert forall|k: Seq<u8>| k != k0 implies lookup(s, k) == lookup(o, k) by {
                    if exists|j: int| key_at(o, j, k) {
                        let j = choose|j: int| key_at(o, j, k);
                        lemma_lookup_at(o, j);
                        if j < p {
                            lemma_lookup_at(s, j);
                        } else {
                            assert(s[j + 1] == o[j]);
                            lemma_lookup_at(s, j + 1);
                        }
                    } else {
                        assert forall|j: int| 0 <= j < s.len() implies s[j].0@ != k by {
                            if j < p {
                                assert(s[j] == o[j]);
                                assert(!key_at(o, j, k));
                            } else if j > p {
                                assert(s[j] == o[j - 1]);
                                assert(!key_at(o, j - 1, k));
                            }
                        }
                    }
                }
            }
        },
    }
}

} // verus!
