//! Properties of merging, stated over the store's model.
use vstd::prelude::*;
use crate::exposition::{lemma_parse_spec_distinct, parse_spec};
use crate::keyed::{is_sorted, key_at, keys_of, lemma_lookup_at, lookup, view_map};
use crate::labels::{lemma_canonical_unique, lemma_pairs_at, name_at, pairs_map, pairs_sorted};
use crate::store::{
    apply_family, apply_push, apply_samples, conflicts, push_conflicts, render_families,
    render_samples, distinct_names, Family, FamilySpec, FamilyView, MetricStore, SampleSpec,
};

verus! {

/// The family `f` names, once `f` is merged into `st`.
pub open spec fn family_after(
    st: Map<Seq<u8>, FamilyView>,
    f: FamilySpec,
    extra: Map<Seq<u8>, Seq<u8>>,
) -> FamilyView {
    apply_family(st, f, extra)[f.name]
}

/// The push names `n`.
pub open spec fn names(fs: Seq<FamilySpec>, n: Seq<u8>) -> bool {
    exists|i: int| 0 <= i < fs.len() && #[trigger] fs[i].name == n
}

/// Storing samples lays what they give over what was there.
pub proof fn lemma_apply_samples_overlay(
    m: Map<Seq<u8>, (Seq<u8>, Seq<u8>)>,
    ss: Seq<SampleSpec>,
    extra: Map<Seq<u8>, Seq<u8>>,
)
    ensures
        apply_samples(m, ss, extra) == m.union_prefer_right(apply_samples(Map::empty(), ss, extra)),
    decreases ss.len(),
{
    if ss.len() > 0 {
        lemma_apply_samples_overlay(m, ss.drop_last(), extra);
        lemma_apply_samples_overlay(Map::empty(), ss.drop_last(), extra);
        assert(apply_samples(m, ss, extra) =~= m.union_prefer_right(
            apply_samples(Map::empty(), ss, extra),
        ));
    }
}

/// A push with distinct family names changes each named family as merging that family
/// alone would, and leaves the others.
pub proof fn lemma_push_pointwise(
    st: Map<Seq<u8>, FamilyView>,
    fs: Seq<FamilySpec>,
    extra: Map<Seq<u8>, Seq<u8>>,
)
    requires
        distinct_names(fs),
    ensures
        forall|n: Seq<u8>| #[trigger]
            apply_push(st, fs, extra).contains_key(n) <==> st.contains_key(n) || names(fs, n),
        forall|i: int|
            0 <= i < fs.len() ==> apply_push(st, fs, extra)[#[trigger] fs[i].name]
                == family_after(st, fs[i], extra),
        forall|n: Seq<u8>| !names(fs, n) ==> #[trigger] apply_push(st, fs, extra)[n] == st[n],
    decreases fs.len(),
{
    if fs.len() > 0 {
        let init = fs.drop_last();
        let last = fs.last();
        assert(distinct_names(init)) by {
            assert forall|i: int, j: int|
                0 <= i < init.len() && 0 <= j < init.len() && i != j implies #[trigger] init[i].name
                != #[trigger] init[j].name by {
                assert(init[i] == fs[i] && init[j] == fs[j]);
            }
        }
        lemma_push_pointwise(st, init, extra);
        let p = apply_push(st, init, extra);
        assert(!names(init, last.name)) by {
            if names(init, last.name) {
                let i = choose|i: int| 0 <= i < init.len() && #[trigger] init[i].name == last.name;
                assert(fs[i] == init[i]);
                assert(fs[fs.len() - 1] == last);
            }
        }
        assert(family_after(p, last, extra) == family_after(st, last, extra));
        assert forall|n: Seq<u8>| #[trigger]
            apply_push(st, fs, extra).contains_key(n) <==> st.contains_key(n) || names(fs, n) by {
            if names(init, n) {
                let i = choose|i: int| 0 <= i < init.len() && #[trigger] init[i].name == n;
                assert(fs[i] == init[i]);
            }
            if names(fs, n) {
                let i = choose|i: int| 0 <= i < fs.len() && #[trigger] fs[i].name == n;
                if i < fs.len() - 1 {
                    assert(fs[i] == init[i]);
                }
            }
        }
        assert forall|i: int| 0 <= i < fs.len() implies apply_push(st, fs, extra)[
            #[trigger] fs[i].name] == family_after(st, fs[i], extra) by {
            if i < fs.len() - 1 {
                assert(fs[i] == init[i]);
                assert(fs[i].name != last.name);
            }
        }
        assert forall|n: Seq<u8>| !names(fs, n) implies #[trigger] apply_push(st, fs, extra)[n]
            == st[n] by {
            if names(init, n) {
                let i = choose|i: int| 0 <= i < init.len() && #[trigger] init[i].name == n;
                assert(fs[i] == init[i]);
            }
            assert(fs[fs.len() - 1] == last);
        }
    }
}

/// Pushing the same body with the same path labels twice in a row leaves the store as
/// pushing it once does; and where the first push met no type conflict, the second
/// meets none either.
pub proof fn lemma_repush_idempotent(
    st: Map<Seq<u8>, FamilyView>,
    fs: Seq<FamilySpec>,
    extra: Map<Seq<u8>, Seq<u8>>,
)
    requires
        distinct_names(fs),
    ensures
        apply_push(apply_push(st, fs, extra), fs, extra) == apply_push(st, fs, extra),
        !push_conflicts(st, fs) ==> !push_conflicts(apply_push(st, fs, extra), fs),
{
    let once = apply_push(st, fs, extra);
    let twice = apply_push(once, fs, extra);
    lemma_push_pointwise(st, fs, extra);
    lemma_push_pointwise(once, fs, extra);
    assert forall|i: int| 0 <= i < fs.len() implies twice[#[trigger] fs[i].name]
        == once[fs[i].name] by {
        let f = fs[i];
        let base = if st.contains_key(f.name) {
            st[f.name]
        } else {
            FamilyView { kind: f.kind, help: f.help, samples: Map::empty() }
        };
        let a = apply_samples(Map::empty(), f.samples, extra);
        lemma_apply_samples_overlay(base.samples, f.samples, extra);
        lemma_apply_samples_overlay(once[f.name].samples, f.samples, extra);
        assert(once.contains_key(f.name));
        assert(base.samples.union_prefer_right(a).union_prefer_right(a) =~= base.samples.union_prefer_right(a));
    }
    assert forall|n: Seq<u8>| #[trigger] twice.contains_key(n) implies twice[n] == once[n] by {
        if names(fs, n) {
            let i = choose|i: int| 0 <= i < fs.len() && #[trigger] fs[i].name == n;
        }
    }
    assert(twice =~= once);
    if !push_conflicts(st, fs) {
        assert forall|i: int| 0 <= i < fs.len() implies !conflicts(once, #[trigger] fs[i]) by {
            assert(!conflicts(st, fs[i]));
        }
    }
}

/// Pushes that name disjoint sets of families give the same store in either order, and
/// that store holds every family of both.
pub proof fn lemma_disjoint_pushes_commute(
    st: Map<Seq<u8>, FamilyView>,
    a: Seq<FamilySpec>,
    ea: Map<Seq<u8>, Seq<u8>>,
    b: Seq<FamilySpec>,
    eb: Map<Seq<u8>, Seq<u8>>,
)
    requires
        distinct_names(a),
        distinct_names(b),
        forall|n: Seq<u8>| !(names(a, n) && names(b, n)),
    ensures
        apply_push(apply_push(st, a, ea), b, eb) == apply_push(apply_push(st, b, eb), a, ea),
        forall|n: Seq<u8>|
            names(a, n) || names(b, n) ==> #[trigger] apply_push(apply_push(st, a, ea), b, eb).contains_key(n),
{
    let sa = apply_push(st, a, ea);
    let sb = apply_push(st, b, eb);
    let ab = apply_push(sa, b, eb);
    let ba = apply_push(sb, a, ea);
    lemma_push_pointwise(st, a, ea);
    lemma_push_pointwise(st, b, eb);
    lemma_push_pointwise(sa, b, eb);
    lemma_push_pointwise(sb, a, ea);
    assert forall|n: Seq<u8>| #[trigger] ab.contains_key(n) == ba.contains_key(n) by {}
    assert forall|n: Seq<u8>| #[trigger] ab.contains_key(n) implies ab[n] == ba[n] by {
        if names(a, n) {
            let i = choose|i: int| 0 <= i < a.len() && #[trigger] a[i].name == n;
            assert(!names(b, n));
            assert(family_after(sb, a[i], ea) == family_after(st, a[i], ea));
        } else if names(b, n) {
            let i = choose|i: int| 0 <= i < b.len() && #[trigger] b[i].name == n;
            assert(family_after(sa, b[i], eb) == family_after(st, b[i], eb));
        }
    }
    assert(ab =~= ba);
}

/// The entries with keys and values seen through their views.
pub open spec fn entry_views<V: View>(s: Seq<(Vec<u8>, V)>) -> Seq<(Seq<u8>, V::V)> {
    s.map_values(|e: (Vec<u8>, V)| (e.0@, e.1@))
}

/// A sorted list, seen through views, is sorted and holds the same map.
pub proof fn lemma_entry_views<V: View>(l: Seq<(Vec<u8>, V)>)
    requires
        is_sorted(l),
    ensures
        pairs_sorted(entry_views(l)),
        pairs_map(entry_views(l)) == view_map(l),
{
    let c = entry_views(l);
    assert(c.map_values(|e: (Seq<u8>, V::V)| e.0) =~= keys_of(l));
    assert forall|k: Seq<u8>| #[trigger] pairs_map(c).contains_key(k) == view_map(l).contains_key(k) by {
        if exists|i: int| name_at(c, i, k) {
            let i = choose|i: int| name_at(c, i, k);
            assert(key_at(l, i, k));
        }
        if exists|i: int| key_at(l, i, k) {
            let i = choose|i: int| key_at(l, i, k);
            assert(name_at(c, i, k));
        }
    }
    assert forall|k: Seq<u8>| #[trigger] pairs_map(c).contains_key(k) implies pairs_map(c)[k]
        == view_map(l)[k] by {
        let i = choose|i: int| name_at(c, i, k);
        lemma_pairs_at(c, i);
        lemma_lookup_at(l, i);
    }
    assert(pairs_map(c) =~= view_map(l));
}

proof fn lemma_render_samples_by_views(
    name: Seq<u8>,
    a: Seq<(Vec<u8>, crate::store::SampleValue)>,
    b: Seq<(Vec<u8>, crate::store::SampleValue)>,
)
    requires
        entry_views(a) == entry_views(b),
    ensures
        render_samples(name, a) == render_samples(name, b),
    decreases a.len(),
{
    assert(a.len() == entry_views(a).len());
    if a.len() > 0 {
        assert(entry_views(a.drop_last()) =~= entry_views(a).drop_last());
        assert(entry_views(b.drop_last()) =~= entry_views(b).drop_last());
        assert(entry_views(a)[a.len() - 1] == entry_views(b)[a.len() - 1]);
        lemma_render_samples_by_views(name, a.drop_last(), b.drop_last());
    }
}

proof fn lemma_render_families_by_views(a: Seq<(Vec<u8>, Family)>, b: Seq<(Vec<u8>, Family)>)
    requires
        a.len() == b.len(),
        forall|i: int|
            0 <= i < a.len() ==> (#[trigger] a[i]).0@ == b[i].0@ && a[i].1.kind == b[i].1.kind
                && a[i].1.help@ == b[i].1.help@ && entry_views(a[i].1.samples@) == entry_views(
                b[i].1.samples@,
            ),
    ensures
        render_families(a) == render_families(b),
    decreases a.len(),
{
    if a.len() > 0 {
        let n = a.len() - 1;
        assert(a[n] == a.last() && b[n] == b.last());
        lemma_render_samples_by_views(a[n].0@, a[n].1.samples@, b[n].1.samples@);
        assert forall|i: int| 0 <= i < a.drop_last().len() implies (#[trigger] a.drop_last()[i]).0@
            == b.drop_last()[i].0@ && a.drop_last()[i].1.kind == b.drop_last()[i].1.kind
            && a.drop_last()[i].1.help@ == b.drop_last()[i].1.help@ && entry_views(
            a.drop_last()[i].1.samples@,
        ) == entry_views(b.drop_last()[i].1.samples@) by {
            assert(a.drop_last()[i] == a[i] && b.drop_last()[i] == b[i]);
        }
        lemma_render_families_by_views(a.drop_last(), b.drop_last());
    }
}

/// The rendered text is a function of what the store holds: two stores with the same
/// families and samples render byte for byte alike, whatever order their merges came in.
pub proof fn lemma_render_depends_only_on_contents(a: MetricStore, b: MetricStore)
    requires
        a.wf(),
        b.wf(),
        a@ == b@,
    ensures
        render_families(a.families@) == render_families(b.families@),
{
    let fa = a.families@;
    let fb = b.families@;
    lemma_entry_views(fa);
    lemma_entry_views(fb);
    lemma_canonical_unique(entry_views(fa), entry_views(fb));
    assert(fa.len() == entry_views(fa).len() && fb.len() == entry_views(fb).len());
    assert forall|i: int| 0 <= i < fa.len() implies (#[trigger] fa[i]).0@ == fb[i].0@ && fa[i].1.kind
        == fb[i].1.kind && fa[i].1.help@ == fb[i].1.help@ && entry_views(fa[i].1.samples@)
        == entry_views(fb[i].1.samples@) by {
        assert(entry_views(fa)[i] == entry_views(fb)[i]);
        lemma_lookup_at(fa, i);
        lemma_lookup_at(fb, i);
        assert(lookup(fa, fa[i].0@) matches Some(f) && is_sorted(f.samples@));
        assert(lookup(fb, fb[i].0@) matches Some(f) && is_sorted(f.samples@));
        let sa = fa[i].1.samples@;
        let sb = fb[i].1.samples@;
        lemma_entry_views(sa);
        lemma_entry_views(sb);
        assert(fa[i].1@ == fb[i].1@);
        lemma_canonical_unique(entry_views(sa), entry_views(sb));
    }
    lemma_render_families_by_views(fa, fb);
}

/// Pushing a body twice in a row with the same path labels: where the first push
/// succeeds, the second succeeds too and leaves the store as the first left it.
pub proof fn lemma_repush_body(
    st: Map<Seq<u8>, FamilyView>,
    body: Seq<u8>,
    extra: Map<Seq<u8>, Seq<u8>>,
)
    ensures
        parse_spec(body) matches Ok(fs) ==> (!push_conflicts(st, fs) ==> !push_conflicts(
            apply_push(st, fs, extra),
            fs,
        ) && apply_push(apply_push(st, fs, extra), fs, extra) == apply_push(st, fs, extra)),
{
    lemma_parse_spec_distinct(body);
    if let Ok(fs) = parse_spec(body) {
        lemma_repush_idempotent(st, fs, extra);
    }
}

/// Two bodies that name disjoint sets of families, each pushed without a type conflict
/// against the store: pushed one after the other, in either order, both succeed, the
/// results are equal, and every family of both is stored.
pub proof fn lemma_disjoint_bodies(
    st: Map<Seq<u8>, FamilyView>,
    a: Seq<u8>,
    ea: Map<Seq<u8>, Seq<u8>>,
    b: Seq<u8>,
    eb: Map<Seq<u8>, Seq<u8>>,
)
    ensures
        (parse_spec(a) matches Ok(fa) && parse_spec(b) matches Ok(fb) && (forall|n: Seq<u8>|
            !(names(fa, n) && names(fb, n))) && !push_conflicts(st, fa) && !push_conflicts(st, fb))
            ==> ({
            let fa = parse_spec(a).unwrap();
            let fb = parse_spec(b).unwrap();
            &&& !push_conflicts(apply_push(st, fa, ea), fb)
            &&& !push_conflicts(apply_push(st, fb, eb), fa)
            &&& apply_push(apply_push(st, fa, ea), fb, eb) == apply_push(apply_push(st, fb, eb), fa, ea)
            &&& forall|n: Seq<u8>|
                names(fa, n) || names(fb, n) ==> #[trigger] apply_push(apply_push(st, fa, ea), fb, eb).contains_key(n)
        }),
{
    lemma_parse_spec_distinct(a);
    lemma_parse_spec_distinct(b);
    if let (Ok(fa), Ok(fb)) = (parse_spec(a), parse_spec(b)) {
        if (forall|n: Seq<u8>| !(names(fa, n) && names(fb, n))) && !push_conflicts(st, fa)
            && !push_conflicts(st, fb) {
            lemma_disjoint_pushes_commute(st, fa, ea, fb, eb);
            lemma_push_pointwise(st, fa, ea);
            lemma_push_pointwise(st, fb, eb);
            let sa = apply_push(st, fa, ea);
            let sb = apply_push(st, fb, eb);
            assert forall|i: int| 0 <= i < fb.len() implies !conflicts(sa, #[trigger] fb[i]) by {
                assert(names(fb, fb[i].name));
                assert(!conflicts(st, fb[i]));
            }
            assert forall|i: int| 0 <= i < fa.len() implies !conflicts(sb, #[trigger] fa[i]) by {
                assert(names(fa, fa[i].name));
                assert(!conflicts(st, fa[i]));
            }
        }
    }
}

} // verus!
