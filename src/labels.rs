//! Label sets: names and values as byte strings, kept sorted by name.
use vstd::prelude::*;
use crate::keyed::{
    find_slot, is_sorted, key_at, keys_of, lemma_lex_irreflexive, lemma_lex_transitive,
    lemma_lookup_at, lex_lt, lookup, sorted_keys, upsert,
};
use crate::router::{copy_bytes, views_of};

verus! {

/// A label set: entries sorted by name, one per name.
pub type LabelList = Vec<(Vec<u8>, Vec<u8>)>;

pub const SLASH: u8 = 0x2f;

/// The label set as a map from name to value.
pub open spec fn label_map(s: Seq<(Vec<u8>, Vec<u8>)>) -> Map<Seq<u8>, Seq<u8>> {
    Map::new(|k: Seq<u8>| lookup(s, k).is_some(), |k: Seq<u8>| lookup(s, k).unwrap()@)
}

/// Storing `(k, v)` in a sorted label list stores it in the map.
pub proof fn lemma_label_map_upsert(
    before: Seq<(Vec<u8>, Vec<u8>)>,
    after: Seq<(Vec<u8>, Vec<u8>)>,
    k: Seq<u8>,
    v: Vec<u8>,
)
    requires
        lookup(after, k) == Some(v),
        forall|k2: Seq<u8>| k2 != k ==> lookup(after, k2) == lookup(before, k2),
    ensures
        label_map(after) == label_map(before).insert(k, v@),
{
    assert(label_map(after) =~= label_map(before).insert(k, v@));
}

/// The pieces of `s` between occurrences of `sep`: one more piece than separators.
pub open spec fn split_on(s: Seq<u8>, sep: u8) -> Seq<Seq<u8>>
    decreases s.len(),
{
    if s.len() == 0 {
        seq![Seq::<u8>::empty()]
    } else {
        let p = split_on(s.drop_last(), sep);
        if s.last() == sep {
            p.push(Seq::<u8>::empty())
        } else {
            p.update(p.len() - 1, p.last().push(s.last()))
        }
    }
}

/// Splits `s` at each `sep`.
pub fn split_bytes(s: &Vec<u8>, sep: u8) -> (r: Vec<Vec<u8>>)
    ensures
        views_of(r@) == split_on(s@, sep),
{
    let mut parts: Vec<Vec<u8>> = Vec::new();
    let mut cur: Vec<u8> = Vec::new();
    let mut i: usize = 0;
    assert(s@.take(0) =~= Seq::<u8>::empty());
    assert(views_of(parts@).push(cur@) =~= split_on(s@.take(0), sep));
    while i < s.len()
        invariant
            i <= s@.len(),
            views_of(parts@).push(cur@) == split_on(s@.take(i as int), sep),
        decreases s.len() - i,
    {
        let ghost before = views_of(parts@).push(cur@);
        assert(s@.take(i + 1).drop_last() =~= s@.take(i as int));
        assert(s@.take(i + 1).last() == s@[i as int]);
        if s[i] == sep {
            let done = cur;
            parts.push(done);
            cur = Vec::new();
            assert(views_of(parts@).push(cur@) =~= before.push(Seq::<u8>::empty()));
        } else {
            cur.push(s[i]);
            assert(views_of(parts@).push(cur@) =~= before.update(
                before.len() - 1,
                before.last().push(s@[i as int]),
            ));
        }
        i = i + 1;
    }
    let last = cur;
    parts.push(last);
    assert(s@.take(i as int) =~= s@);
    assert(views_of(parts@) =~= split_on(s@, sep));
    parts
}

/// The labels that a path suffix names: its segments taken as name, value, name,
/// value, ...; a last name without a value gets the empty value; an empty name ends
/// the list; a later name overrides an earlier one.
pub open spec fn path_labels_from(segs: Seq<Seq<u8>>, i: int, m: Map<Seq<u8>, Seq<u8>>) -> Map<
    Seq<u8>,
    Seq<u8>,
>
    decreases segs.len() - i,
{
    if i < 0 || i >= segs.len() || segs[i].len() == 0 {
        m
    } else if i + 1 >= segs.len() {
        m.insert(segs[i], Seq::<u8>::empty())
    } else {
        path_labels_from(segs, i + 2, m.insert(segs[i], segs[i + 1]))
    }
}

pub open spec fn path_labels(tail: Seq<u8>) -> Map<Seq<u8>, Seq<u8>> {
    path_labels_from(split_on(tail, SLASH), 0, Map::empty())
}

/// The label set named by a path suffix such as `job/foo/instance/bar`.
pub fn labels_from_path(tail: &Vec<u8>) -> (r: LabelList)
    ensures
        is_sorted(r@),
        label_map(r@) == path_labels(tail@),
{
    let segs = split_bytes(tail, SLASH);
    let ghost sv = views_of(segs@);
    let mut out: LabelList = Vec::new();
    let mut i: usize = 0;
    assert(label_map(out@) =~= Map::<Seq<u8>, Seq<u8>>::empty());
    while i < segs.len()
        invariant
            sv == views_of(segs@),
            sv == split_on(tail@, SLASH),
            is_sorted(out@),
            path_labels_from(sv, i as int, label_map(out@)) == path_labels(tail@),
        ensures
            is_sorted(out@),
            label_map(out@) == path_labels(tail@),
        decreases segs.len() - i,
    {
        assert(sv[i as int] == segs@[i as int]@);
        if segs[i].len() == 0 {
            break;
        }
        let name = copy_bytes(&segs[i]);
        let value = if i + 1 < segs.len() {
            assert(sv[i + 1] == segs@[i + 1]@);
            copy_bytes(&segs[i + 1])
        } else {
            Vec::new()
        };
        let ghost before = out@;
        upsert(&mut out, name, value);
        proof {
            lemma_label_map_upsert(before, out@, name@, value);
        }
        if i + 1 >= segs.len() {
            i = segs.len();
        } else {
            i = i + 2;
        }
    }
    out
}

/// The label set as pairs of byte strings.
pub open spec fn pair_views(s: Seq<(Vec<u8>, Vec<u8>)>) -> Seq<(Seq<u8>, Seq<u8>)> {
    s.map_values(|e: (Vec<u8>, Vec<u8>)| (e.0@, e.1@))
}

pub open spec fn pairs_sorted<A>(c: Seq<(Seq<u8>, A)>) -> bool {
    sorted_keys(c.map_values(|e: (Seq<u8>, A)| e.0))
}

/// Pair `i` has name `k`.
pub open spec fn name_at<A>(c: Seq<(Seq<u8>, A)>, i: int, k: Seq<u8>) -> bool {
    0 <= i < c.len() && c[i].0 == k
}

/// The pairs as a map from name to value.
pub open spec fn pairs_map<A>(c: Seq<(Seq<u8>, A)>) -> Map<Seq<u8>, A> {
    Map::new(
        |k: Seq<u8>| exists|i: int| name_at(c, i, k),
        |k: Seq<u8>| c[choose|i: int| name_at(c, i, k)].1,
    )
}

/// The one sorted list of pairs that holds the map `m`.
pub open spec fn canonical(m: Map<Seq<u8>, Seq<u8>>) -> Seq<(Seq<u8>, Seq<u8>)> {
    choose|c: Seq<(Seq<u8>, Seq<u8>)>| pairs_sorted(c) && pairs_map(c) == m
}

pub proof fn lemma_pairs_at<A>(c: Seq<(Seq<u8>, A)>, i: int)
    requires
        pairs_sorted(c),
        0 <= i < c.len(),
    ensures
        pairs_map(c).contains_key(c[i].0),
        pairs_map(c)[c[i].0] == c[i].1,
{
    let k = c[i].0;
    assert(name_at(c, i, k));
    let j = choose|j: int| name_at(c, j, k);
    let ks = c.map_values(|e: (Seq<u8>, A)| e.0);
    if j != i {
        lemma_lex_irreflexive(k);
        assert(ks[i] == k && ks[j] == k);
        if j < i {
            assert(lex_lt(ks[j], ks[i]));
        } else {
            assert(lex_lt(ks[i], ks[j]));
        }
    }
}

pub proof fn lemma_pairs_drop_first<A>(c: Seq<(Seq<u8>, A)>)
    requires
        pairs_sorted(c),
        c.len() > 0,
    ensures
        pairs_sorted(c.drop_first()),
        pairs_map(c.drop_first()) == pairs_map(c).remove(c[0].0),
{
    let t = c.drop_first();
    let ks = c.map_values(|e: (Seq<u8>, A)| e.0);
    let kt = t.map_values(|e: (Seq<u8>, A)| e.0);
    assert forall|a: int, b: int| 0 <= a < b < kt.len() implies lex_lt(
        #[trigger] kt[a],
        #[trigger] kt[b],
    ) by {
        assert(lex_lt(ks[a + 1], ks[b + 1]));
    }
    assert forall|k: Seq<u8>| #[trigger]
        pairs_map(t).contains_key(k) == pairs_map(c).remove(c[0].0).contains_key(k) by {
        if exists|i: int| name_at(t, i, k) {
            let i = choose|i: int| name_at(t, i, k);
            assert(name_at(c, i + 1, k));
            assert(lex_lt(ks[0], ks[i + 1]));
            lemma_lex_irreflexive(k);
        }
        if exists|i: int| name_at(c, i, k) {
            let i = choose|i: int| name_at(c, i, k);
            if i > 0 {
                assert(name_at(t, i - 1, k));
            }
        }
    }
    assert forall|k: Seq<u8>| #[trigger] pairs_map(t).contains_key(k) implies pairs_map(t)[k]
        == pairs_map(c)[k] by {
        let i = choose|i: int| name_at(t, i, k);
        lemma_pairs_at(t, i);
        lemma_pairs_at(c, i + 1);
    }
    assert(pairs_map(t) =~= pairs_map(c).remove(c[0].0));
}

/// Two sorted lists of pairs that hold the same map are the same list.
pub proof fn lemma_canonical_unique<A>(a: Seq<(Seq<u8>, A)>, b: Seq<(Seq<u8>, A)>)
    requires
        pairs_sorted(a),
        pairs_sorted(b),
        pairs_map(a) == pairs_map(b),
    ensures
        a == b,
    decreases a.len(),
{
    if a.len() == 0 || b.len() == 0 {
        if a.len() > 0 {
            lemma_pairs_at(a, 0);
        }
        if b.len() > 0 {
            lemma_pairs_at(b, 0);
        }
        assert(a =~= b);
    } else {
        let ka = a[0].0;
        let kb = b[0].0;
        let ksa = a.map_values(|e: (Seq<u8>, A)| e.0);
        let ksb = b.map_values(|e: (Seq<u8>, A)| e.0);
        lemma_pairs_at(a, 0);
        lemma_pairs_at(b, 0);
        if ka != kb {
            let j = choose|j: int| name_at(b, j, ka);
            let i = choose|i: int| name_at(a, i, kb);
            assert(ksa[i] == kb && ksb[j] == ka);
            lemma_lex_irreflexive(ka);
            lemma_lex_irreflexive(kb);
            if i > 0 && j > 0 {
                assert(lex_lt(ksa[0], ksa[i]));
                assert(lex_lt(ksb[0], ksb[j]));
                lemma_lex_transitive(ka, kb, ka);
            } else if i == 0 {
                assert(false);
            } else {
                assert(false);
            }
        }
        lemma_pairs_drop_first(a);
        lemma_pairs_drop_first(b);
        lemma_canonical_unique(a.drop_first(), b.drop_first());
        assert(a =~= seq![a[0]] + a.drop_first());
        assert(b =~= seq![b[0]] + b.drop_first());
    }
}

/// A sorted label list, seen as pairs, is sorted and holds the same map.
pub proof fn lemma_pair_views(l: Seq<(Vec<u8>, Vec<u8>)>)
    requires
        is_sorted(l),
    ensures
        pairs_sorted(pair_views(l)),
        pairs_map(pair_views(l)) == label_map(l),
        canonical(label_map(l)) == pair_views(l),
{
    let c = pair_views(l);
    assert(c.map_values(|e: (Seq<u8>, Seq<u8>)| e.0) =~= keys_of(l));
    assert forall|k: Seq<u8>| #[trigger] pairs_map(c).contains_key(k) == label_map(l).contains_key(
        k,
    ) by {
        if exists|i: int| name_at(c, i, k) {
            let i = choose|i: int| name_at(c, i, k);
            assert(key_at(l, i, k));
        }
        if exists|i: int| key_at(l, i, k) {
            let i = choose|i: int| key_at(l, i, k);
            assert(name_at(c, i, k));
        }
    }
    assert forall|k: Seq<u8>| #[trigger] pairs_map(c).contains_key(k) implies pairs_map(c)[k]
        == label_map(l)[k] by {
        let i = choose|i: int| name_at(c, i, k);
        lemma_pairs_at(c, i);
        lemma_lookup_at(l, i);
    }
    assert(pairs_map(c) =~= label_map(l));
    let d = canonical(label_map(l));
    lemma_canonical_unique(c, d);
}

pub const QUOTE: u8 = 0x22;

pub const BACKSLASH: u8 = 0x5c;

pub const NEWLINE: u8 = 0x0a;

/// The escaped form of one byte of a label value.
pub open spec fn escape_byte(b: u8) -> Seq<u8> {
    if b == BACKSLASH {
        seq![BACKSLASH, BACKSLASH]
    } else if b == QUOTE {
        seq![BACKSLASH, QUOTE]
    } else if b == NEWLINE {
        seq![BACKSLASH, 0x6eu8]
    } else {
        seq![b]
    }
}

/// A label value as it stands between quotes.
pub open spec fn escape(v: Seq<u8>) -> Seq<u8>
    decreases v.len(),
{
    if v.len() == 0 {
        Seq::empty()
    } else {
        escape(v.drop_last()) + escape_byte(v.last())
    }
}

pub proof fn lemma_escape_concat(a: Seq<u8>, b: Seq<u8>)
    ensures
        escape(a + b) == escape(a) + escape(b),
    decreases b.len(),
{
    if b.len() == 0 {
        assert(a + b =~= a);
        assert(escape(a) + escape(b) =~= escape(a));
    } else {
        assert((a + b).drop_last() =~= a + b.drop_last());
        lemma_escape_concat(a, b.drop_last());
        assert(escape(a + b) =~= escape(a) + escape(b));
    }
}

pub proof fn lemma_escape_front(v: Seq<u8>)
    requires
        v.len() > 0,
    ensures
        escape(v) == escape_byte(v[0]) + escape(v.drop_first()),
{
    let one = seq![v[0]];
    assert(v =~= one + v.drop_first());
    lemma_escape_concat(one, v.drop_first());
    assert(one.drop_last() =~= Seq::<u8>::empty());
    assert(escape(Seq::<u8>::empty()) =~= Seq::<u8>::empty());
    assert(escape(one) == escape(one.drop_last()) + escape_byte(one.last()));
    assert(escape(one) =~= escape_byte(v[0]));
}

/// An escaped value followed by a quote reads back one way only: the closing quote is
/// the first unescaped quote, and what stands before it decodes to the value.
pub proof fn lemma_escaped_value_reads_back(v: Seq<u8>, w: Seq<u8>, r1: Seq<u8>, r2: Seq<u8>)
    requires
        escape(v) + seq![QUOTE] + r1 == escape(w) + seq![QUOTE] + r2,
    ensures
        v == w,
        r1 == r2,
    decreases v.len(),
{
    let x = escape(v) + seq![QUOTE] + r1;
    if v.len() == 0 {
        if w.len() > 0 {
            lemma_escape_front(w);
            assert(x[0] == QUOTE);
            assert(x[0] == escape_byte(w[0])[0]);
        }
        assert(escape(v) =~= Seq::<u8>::empty());
        assert(escape(w) =~= Seq::<u8>::empty());
        assert(r1 =~= x.drop_first());
        assert(r2 =~= x.drop_first());
        assert(v =~= w);
    } else {
        lemma_escape_front(v);
        if w.len() == 0 {
            assert(x[0] == escape_byte(v[0])[0]);
            assert(false);
        } else {
            lemma_escape_front(w);
            let ev = escape_byte(v[0]);
            let ew = escape_byte(w[0]);
            assert(x[0] == ev[0] && x[0] == ew[0]);
            if ev.len() == 2 {
                assert(x[1] == ev[1] && x[1] == ew[1]);
            }
            assert(v[0] == w[0]);
            let tv = v.drop_first();
            let tw = w.drop_first();
            assert(x =~= ev + (escape(tv) + seq![QUOTE] + r1));
            assert(x =~= ev + (escape(tw) + seq![QUOTE] + r2));
            assert(escape(tv) + seq![QUOTE] + r1 =~= x.skip(ev.len() as int));
            assert(escape(tw) + seq![QUOTE] + r2 =~= x.skip(ev.len() as int));
            lemma_escaped_value_reads_back(tv, tw, r1, r2);
            assert(v =~= seq![v[0]] + tv);
            assert(w =~= seq![w[0]] + tw);
        }
    }
}

/// `name="value"`.
pub open spec fn encode_pair(p: (Seq<u8>, Seq<u8>)) -> Seq<u8> {
    p.0 + seq![0x3du8, QUOTE] + escape(p.1) + seq![QUOTE]
}

/// The pairs joined by commas.
pub open spec fn encode_pairs(c: Seq<(Seq<u8>, Seq<u8>)>) -> Seq<u8>
    decreases c.len(),
{
    if c.len() == 0 {
        Seq::empty()
    } else if c.len() == 1 {
        encode_pair(c[0])
    } else {
        encode_pairs(c.drop_last()) + seq![0x2cu8] + encode_pair(c.last())
    }
}

/// `{name="value",...}`, or nothing for the empty label set.
pub open spec fn encode_block(c: Seq<(Seq<u8>, Seq<u8>)>) -> Seq<u8> {
    if c.len() == 0 {
        Seq::empty()
    } else {
        seq![0x7bu8] + encode_pairs(c) + seq![0x7du8]
    }
}

/// The identity of a sample with label set `m` within its family.
pub open spec fn label_identity(m: Map<Seq<u8>, Seq<u8>>) -> Seq<u8> {
    encode_block(canonical(m))
}

/// Appends `b` to `out`.
pub fn append_bytes(out: &mut Vec<u8>, b: &Vec<u8>)
    ensures
        final(out)@ == old(out)@ + b@,
{
    let mut i: usize = 0;
    while i < b.len()
        invariant
            i <= b@.len(),
            out@ == old(out)@ + b@.take(i as int),
        decreases b.len() - i,
    {
        out.push(b[i]);
        assert(b@.take(i + 1) =~= b@.take(i as int).push(b@[i as int]));
        i = i + 1;
    }
    assert(b@.take(i as int) =~= b@);
}

/// Appends the escaped form of `v` to `out`.
pub fn append_escaped(out: &mut Vec<u8>, v: &Vec<u8>)
    ensures
        final(out)@ == old(out)@ + escape(v@),
{
    let mut i: usize = 0;
    assert(old(out)@ + escape(v@.take(0)) =~= old(out)@);
    while i < v.len()
        invariant
            i <= v@.len(),
            out@ == old(out)@ + escape(v@.take(i as int)),
        decreases v.len() - i,
    {
        let b = v[i];
        assert(v@.take(i + 1).drop_last() =~= v@.take(i as int));
        if b == BACKSLASH {
            out.push(BACKSLASH);
            out.push(BACKSLASH);
        } else if b == QUOTE {
            out.push(BACKSLASH);
            out.push(QUOTE);
        } else if b == NEWLINE {
            out.push(BACKSLASH);
            out.push(0x6e);
        } else {
            out.push(b);
        }
        assert(out@ =~= old(out)@ + escape(v@.take(i + 1)));
        i = i + 1;
    }
    assert(v@.take(i as int) =~= v@);
}

/// Appends `{name="value",...}` for a label list, or nothing when it is empty.
pub fn append_block(out: &mut Vec<u8>, l: &LabelList)
    ensures
        final(out)@ == old(out)@ + encode_block(pair_views(l@)),
{
    let ghost c = pair_views(l@);
    if l.len() == 0 {
        assert(old(out)@ + encode_block(c) =~= old(out)@);
        return;
    }
    out.push(0x7b);
    let ghost start = out@;
    let mut i: usize = 0;
    while i < l.len()
        invariant
            i <= l@.len(),
            c == pair_views(l@),
            out@ == start + encode_pairs(c.take(i as int)),
        decreases l.len() - i,
    {
        let ghost before = out@;
        if i > 0 {
            out.push(0x2c);
        }
        append_bytes(out, &l[i].0);
        out.push(0x3d);
        out.push(QUOTE);
        append_escaped(out, &l[i].1);
        out.push(QUOTE);
        proof {
            let t = c.take(i + 1);
            assert(t.drop_last() =~= c.take(i as int));
            assert(t.last() == (l@[i as int].0@, l@[i as int].1@));
            if i == 0 {
                assert(c.take(0).len() == 0);
                assert(out@ =~= before + encode_pair(t.last()));
            } else {
                assert(out@ =~= before + seq![0x2cu8] + encode_pair(t.last()));
            }
        }
        i = i + 1;
    }
    out.push(0x7d);
    assert(c.take(i as int) =~= c);
    assert(out@ =~= old(out)@ + encode_block(c));
}

/// The union of two label sets; `extra` wins where both name a label.
pub fn union_labels(body: &LabelList, extra: &LabelList) -> (r: LabelList)
    requires
        is_sorted(body@),
        is_sorted(extra@),
    ensures
        is_sorted(r@),
        label_map(r@) == label_map(body@).union_prefer_right(label_map(extra@)),
{
    let mut out: LabelList = Vec::new();
    let mut i: usize = 0;
    assert(label_map(out@) =~= Map::<Seq<u8>, Seq<u8>>::empty());
    while i < body.len()
        invariant
            i <= body@.len(),
            is_sorted(out@),
            is_sorted(body@),
            forall|k: Seq<u8>| #[trigger]
                label_map(out@).contains_key(k) ==> label_map(body@).contains_key(k) && label_map(
                    out@,
                )[k] == label_map(body@)[k],
            forall|j: int| 0 <= j < i ==> label_map(out@).contains_key(#[trigger] body@[j].0@),
        decreases body.len() - i,
    {
        let ghost before = out@;
        let name = copy_bytes(&body[i].0);
        let value = copy_bytes(&body[i].1);
        upsert(&mut out, name, value);
        proof {
            lemma_lookup_at(body@, i as int);
            lemma_label_map_upsert(before, out@, name@, value);
        }
        i = i + 1;
    }
    assert(label_map(out@) =~= label_map(body@)) by {
        assert forall|k: Seq<u8>| #[trigger] label_map(body@).contains_key(k) implies label_map(
            out@,
        ).contains_key(k) by {
            let j = choose|j: int| key_at(body@, j, k);
        }
    }
    let mut e: usize = 0;
    while e < extra.len()
        invariant
            e <= extra@.len(),
            is_sorted(out@),
            is_sorted(extra@),
            forall|k: Seq<u8>| #[trigger]
                label_map(out@).contains_key(k) <==> (label_map(body@).contains_key(k) || exists|
                    j: int,
                | 0 <= j < e && key_at(extra@, j, k)),
            forall|j: int|
                0 <= j < e ==> label_map(out@)[#[trigger] extra@[j].0@] == extra@[j].1@,
            forall|k: Seq<u8>| #[trigger]
                label_map(out@).contains_key(k) && !(exists|j: int|
                    0 <= j < e && key_at(extra@, j, k)) ==> label_map(out@)[k] == label_map(
                    body@,
                )[k],
        decreases extra.len() - e,
    {
        let ghost before = out@;
        let name = copy_bytes(&extra[e].0);
        let value = copy_bytes(&extra[e].1);
        upsert(&mut out, name, value);
        proof {
            lemma_label_map_upsert(before, out@, name@, value);
            assert forall|j: int| 0 <= j < e implies extra@[j].0@ != name@ by {
                lemma_lex_irreflexive(name@);
                assert(lex_lt(keys_of(extra@)[j], keys_of(extra@)[e as int]));
            }
            assert(key_at(extra@, e as int, name@));
        }
        e = e + 1;
    }
    proof {
        let u = label_map(body@).union_prefer_right(label_map(extra@));
        assert forall|k: Seq<u8>| #[trigger] label_map(out@).contains_key(k) == u.contains_key(k) by {
            if exists|j: int| 0 <= j < e && key_at(extra@, j, k) {
                let j = choose|j: int| 0 <= j < e && key_at(extra@, j, k);
                assert(key_at(extra@, j, k));
            }
            if exists|j: int| key_at(extra@, j, k) {
                let j = choose|j: int| key_at(extra@, j, k);
                assert(0 <= j < e && key_at(extra@, j, k));
            }
        }
        assert forall|k: Seq<u8>| #[trigger] label_map(out@).contains_key(k) implies label_map(
            out@,
        )[k] == u[k] by {
            if exists|j: int| 0 <= j < e && key_at(extra@, j, k) {
                let j = choose|j: int| 0 <= j < e && key_at(extra@, j, k);
                lemma_lookup_at(extra@, j);
            }
        }
        assert(label_map(out@) =~= u);
    }
    out
}

/// The identity of a sample with labels `body` once `extra` is laid over them.
pub fn identity_key(body: &LabelList, extra: &LabelList) -> (r: Vec<u8>)
    requires
        is_sorted(body@),
        is_sorted(extra@),
    ensures
        r@ == label_identity(label_map(body@).union_prefer_right(label_map(extra@))),
{
    let u = union_labels(body, extra);
    proof {
        lemma_pair_views(u@);
    }
    let mut out: Vec<u8> = Vec::new();
    append_block(&mut out, &u);
    assert(out@ =~= encode_block(pair_views(u@)));
    out
}

} // verus!
