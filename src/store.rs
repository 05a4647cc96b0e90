//! The metric store: families by name, samples by label identity, merged
//! last-write-wins and rendered in a fixed order.
use vstd::prelude::*;
use crate::keyed::{find_slot, is_sorted, lemma_replace_at, lemma_view_map_store, lookup, upsert, view_map};
use crate::labels::{
    append_block, append_bytes, identity_key, label_identity, label_map, LabelList,
};
use crate::router::copy_bytes;

verus! {

/// The declared type of a metric family.
#[derive(Clone, Copy, Debug, PartialEq, Eq, Structural)]
pub enum MetricKind {
    Counter,
    Gauge,
    Histogram,
    Summary,
    Untyped,
}

/// One sample as parsed: its labels (sorted by name), value and optional timestamp
/// (empty when absent), the last two as the text that stood in the input.
pub struct ParsedSample {
    pub labels: LabelList,
    pub value: Vec<u8>,
    pub timestamp: Vec<u8>,
}

/// One family as parsed: name, type, help text (empty when absent) and samples in
/// input order.
pub struct ParsedFamily {
    pub name: Vec<u8>,
    pub kind: MetricKind,
    pub help: Vec<u8>,
    pub samples: Vec<ParsedSample>,
}

/// What a parsed sample says: its labels as a map, value and timestamp.
pub struct SampleSpec {
    pub labels: Map<Seq<u8>, Seq<u8>>,
    pub value: Seq<u8>,
    pub timestamp: Seq<u8>,
}

impl View for ParsedSample {
    type V = SampleSpec;

    open spec fn view(&self) -> SampleSpec {
        SampleSpec { labels: label_map(self.labels@), value: self.value@, timestamp: self.timestamp@ }
    }
}

/// What a parsed family says: name, type, help text and samples in input order.
pub struct FamilySpec {
    pub name: Seq<u8>,
    pub kind: MetricKind,
    pub help: Seq<u8>,
    pub samples: Seq<SampleSpec>,
}

impl View for ParsedFamily {
    type V = FamilySpec;

    open spec fn view(&self) -> FamilySpec {
        FamilySpec {
            name: self.name@,
            kind: self.kind,
            help: self.help@,
            samples: self.samples@.map_values(|x: ParsedSample| x@),
        }
    }
}

/// The parsed families, seen through their views.
pub open spec fn push_view(fs: Seq<ParsedFamily>) -> Seq<FamilySpec> {
    fs.map_values(|f: ParsedFamily| f@)
}

/// No two families share a name.
pub open spec fn distinct_names(fs: Seq<FamilySpec>) -> bool {
    forall|i: int, j: int|
        0 <= i < fs.len() && 0 <= j < fs.len() && i != j ==> #[trigger] fs[i].name != #[trigger] fs[j].name
}

/// A stored sample: value and timestamp, as text.
pub struct SampleValue {
    pub value: Vec<u8>,
    pub timestamp: Vec<u8>,
}

impl View for SampleValue {
    type V = (Seq<u8>, Seq<u8>);

    open spec fn view(&self) -> (Seq<u8>, Seq<u8>) {
        (self.value@, self.timestamp@)
    }
}

/// A stored family: type, help text, and samples keyed by label identity.
pub struct Family {
    pub kind: MetricKind,
    pub help: Vec<u8>,
    pub samples: Vec<(Vec<u8>, SampleValue)>,
}

/// What a family holds: type, help text, and a map from label identity to
/// (value, timestamp).
pub struct FamilyView {
    pub kind: MetricKind,
    pub help: Seq<u8>,
    pub samples: Map<Seq<u8>, (Seq<u8>, Seq<u8>)>,
}

impl View for Family {
    type V = FamilyView;

    open spec fn view(&self) -> FamilyView {
        FamilyView { kind: self.kind, help: self.help@, samples: view_map(self.samples@) }
    }
}

/// Why a merge was refused.
#[derive(Debug)]
pub enum AggregationError {
    /// The push declares a family with a type other than the stored one.
    TypeConflict(Vec<u8>),
    /// The push body is not exposition text.
    Parse(crate::exposition::ParseError),
}

/// The identity of a parsed sample once the extra labels are laid over its own.
pub open spec fn sample_identity(s: SampleSpec, extra: Map<Seq<u8>, Seq<u8>>) -> Seq<u8> {
    label_identity(s.labels.union_prefer_right(extra))
}

/// The samples of a family after the parsed samples `ss`, in order, are stored.
pub open spec fn apply_samples(
    m: Map<Seq<u8>, (Seq<u8>, Seq<u8>)>,
    ss: Seq<SampleSpec>,
    extra: Map<Seq<u8>, Seq<u8>>,
) -> Map<Seq<u8>, (Seq<u8>, Seq<u8>)>
    decreases ss.len(),
{
    if ss.len() == 0 {
        m
    } else {
        apply_samples(m, ss.drop_last(), extra).insert(
            sample_identity(ss.last(), extra),
            (ss.last().value, ss.last().timestamp),
        )
    }
}

/// The store after one parsed family is merged: a new family takes the pushed type and
/// help, an existing one keeps its own.
pub open spec fn apply_family(
    st: Map<Seq<u8>, FamilyView>,
    f: FamilySpec,
    extra: Map<Seq<u8>, Seq<u8>>,
) -> Map<Seq<u8>, FamilyView> {
    let base = if st.contains_key(f.name) {
        st[f.name]
    } else {
        FamilyView { kind: f.kind, help: f.help, samples: Map::empty() }
    };
    st.insert(
        f.name,
        FamilyView {
            kind: base.kind,
            help: base.help,
            samples: apply_samples(base.samples, f.samples, extra),
        },
    )
}

/// The store after the parsed families `fs`, in order, are merged.
pub open spec fn apply_push(
    st: Map<Seq<u8>, FamilyView>,
    fs: Seq<FamilySpec>,
    extra: Map<Seq<u8>, Seq<u8>>,
) -> Map<Seq<u8>, FamilyView>
    decreases fs.len(),
{
    if fs.len() == 0 {
        st
    } else {
        apply_family(apply_push(st, fs.drop_last(), extra), fs.last(), extra)
    }
}

/// A pushed family whose declared type clashes with the stored one; an untyped push
/// clashes with nothing.
pub open spec fn conflicts(st: Map<Seq<u8>, FamilyView>, f: FamilySpec) -> bool {
    st.contains_key(f.name) && f.kind != MetricKind::Untyped && f.kind != st[f.name].kind
}

pub open spec fn push_conflicts(st: Map<Seq<u8>, FamilyView>, fs: Seq<FamilySpec>) -> bool {
    exists|i: int| 0 <= i < fs.len() && conflicts(st, #[trigger] fs[i])
}

/// The name of a type as a TYPE line writes it.
pub open spec fn kind_text(k: MetricKind) -> Seq<u8> {
    match k {
        MetricKind::Counter => seq![0x63u8, 0x6f, 0x75, 0x6e, 0x74, 0x65, 0x72],
        MetricKind::Gauge => seq![0x67u8, 0x61, 0x75, 0x67, 0x65],
        MetricKind::Histogram => seq![0x68u8, 0x69, 0x73, 0x74, 0x6f, 0x67, 0x72, 0x61, 0x6d],
        MetricKind::Summary => seq![0x73u8, 0x75, 0x6d, 0x6d, 0x61, 0x72, 0x79],
        MetricKind::Untyped => seq![0x75u8, 0x6e, 0x74, 0x79, 0x70, 0x65, 0x64],
    }
}

/// `# HELP name help` (when the help text is not empty) and `# TYPE name type`, each
/// ending a line.
pub open spec fn render_header(name: Seq<u8>, kind: MetricKind, help: Seq<u8>) -> Seq<u8> {
    let help_line = if help.len() > 0 {
        seq![0x23u8, 0x20, 0x48, 0x45, 0x4c, 0x50, 0x20] + name + seq![0x20u8] + help + seq![0x0au8]
    } else {
        Seq::empty()
    };
    help_line + seq![0x23u8, 0x20, 0x54, 0x59, 0x50, 0x45, 0x20] + name + seq![0x20u8] + kind_text(kind)
        + seq![0x0au8]
}

/// `name{labels} value [timestamp]` and a line end.
pub open spec fn render_sample(name: Seq<u8>, key: Seq<u8>, v: (Seq<u8>, Seq<u8>)) -> Seq<u8> {
    name + key + seq![0x20u8] + v.0 + (if v.1.len() > 0 {
        seq![0x20u8] + v.1
    } else {
        Seq::empty()
    }) + seq![0x0au8]
}

pub open spec fn render_samples(name: Seq<u8>, ss: Seq<(Vec<u8>, SampleValue)>) -> Seq<u8>
    decreases ss.len(),
{
    if ss.len() == 0 {
        Seq::empty()
    } else {
        render_samples(name, ss.drop_last()) + render_sample(name, ss.last().0@, ss.last().1@)
    }
}

pub open spec fn render_family(e: (Vec<u8>, Family)) -> Seq<u8> {
    render_header(e.0@, e.1.kind, e.1.help@) + render_samples(e.0@, e.1.samples@)
}

/// The families, in list order, as exposition text.
pub open spec fn render_families(fs: Seq<(Vec<u8>, Family)>) -> Seq<u8>
    decreases fs.len(),
{
    if fs.len() == 0 {
        Seq::empty()
    } else {
        render_families(fs.drop_last()) + render_family(fs.last())
    }
}

fn push_seq7(out: &mut Vec<u8>, a: u8, b: u8, c: u8, d: u8, e: u8, f: u8, g: u8)
    ensures
        final(out)@ == old(out)@ + seq![a, b, c, d, e, f, g],
{
    out.push(a);
    out.push(b);
    out.push(c);
    out.push(d);
    out.push(e);
    out.push(f);
    out.push(g);
    assert(out@ =~= old(out)@ + seq![a, b, c, d, e, f, g]);
}

fn append_kind(out: &mut Vec<u8>, k: MetricKind)
    ensures
        final(out)@ == old(out)@ + kind_text(k),
{
    match k {
        MetricKind::Counter => {
            push_seq7(out, 0x63, 0x6f, 0x75, 0x6e, 0x74, 0x65, 0x72);
        },
        MetricKind::Gauge => {
            out.push(0x67);
            out.push(0x61);
            out.push(0x75);
            out.push(0x67);
            out.push(0x65);
            assert(out@ =~= old(out)@ + kind_text(k));
        },
        MetricKind::Histogram => {
            push_seq7(out, 0x68, 0x69, 0x73, 0x74, 0x6f, 0x67, 0x72);
            out.push(0x61);
            out.push(0x6d);
            assert(out@ =~= old(out)@ + kind_text(k));
        },
        MetricKind::Summary => {
            push_seq7(out, 0x73, 0x75, 0x6d, 0x6d, 0x61, 0x72, 0x79);
        },
        MetricKind::Untyped => {
            push_seq7(out, 0x75, 0x6e, 0x74, 0x79, 0x70, 0x65, 0x64);
        },
    }
}

fn append_family(out: &mut Vec<u8>, name: &Vec<u8>, fam: &Family)
    ensures
        final(out)@ == old(out)@ + render_family((*name, *fam)),
{
    if fam.help.len() > 0 {
        push_seq7(out, 0x23, 0x20, 0x48, 0x45, 0x4c, 0x50, 0x20);
        append_bytes(out, name);
        out.push(0x20);
        append_bytes(out, &fam.help);
        out.push(0x0a);
    }
    push_seq7(out, 0x23, 0x20, 0x54, 0x59, 0x50, 0x45, 0x20);
    append_bytes(out, name);
    out.push(0x20);
    append_kind(out, fam.kind);
    out.push(0x0a);
    assert(out@ =~= old(out)@ + render_header(name@, fam.kind, fam.help@));
    let ghost head = out@;
    let mut i: usize = 0;
    assert(fam.samples@.take(0).len() == 0);
    assert(head =~= head + render_samples(name@, fam.samples@.take(0)));
    while i < fam.samples.len()
        invariant
            i <= fam.samples@.len(),
            out@ == head + render_samples(name@, fam.samples@.take(i as int)),
        decreases fam.samples.len() - i,
    {
        let ghost before = out@;
        append_bytes(out, name);
        append_bytes(out, &fam.samples[i].0);
        out.push(0x20);
        append_bytes(out, &fam.samples[i].1.value);
        if fam.samples[i].1.timestamp.len() > 0 {
            out.push(0x20);
            append_bytes(out, &fam.samples[i].1.timestamp);
        }
        out.push(0x0a);
        proof {
            let t = fam.samples@.take(i + 1);
            assert(t.drop_last() =~= fam.samples@.take(i as int));
            assert(t.last() == fam.samples@[i as int]);
            assert(out@ =~= before + render_sample(name@, t.last().0@, t.last().1@));
        }
        i = i + 1;
    }
    assert(fam.samples@.take(i as int) =~= fam.samples@);
    assert(out@ =~= old(out)@ + render_family((*name, *fam)));
}

/// All families and their samples.
pub struct MetricStore {
    pub families: Vec<(Vec<u8>, Family)>,
}

impl View for MetricStore {
    type V = Map<Seq<u8>, FamilyView>;

    open spec fn view(&self) -> Map<Seq<u8>, FamilyView> {
        view_map(self.families@)
    }
}

/// Every sample's labels are sorted by name.
pub open spec fn push_wf(fs: Seq<ParsedFamily>) -> bool {
    forall|i: int, j: int|
        0 <= i < fs.len() && 0 <= j < fs[i].samples@.len() ==> is_sorted(
            #[trigger] fs[i].samples@[j].labels@,
        )
}

/// Stores the parsed samples `ss` into a family's sample list.
fn store_samples(samples: &mut Vec<(Vec<u8>, SampleValue)>, ss: &Vec<ParsedSample>, extra: &LabelList)
    requires
        is_sorted(old(samples)@),
        is_sorted(extra@),
        forall|j: int| 0 <= j < ss@.len() ==> is_sorted(#[trigger] ss@[j].labels@),
    ensures
        is_sorted(final(samples)@),
        view_map(final(samples)@) == apply_samples(
            view_map(old(samples)@),
            ss@.map_values(|x: ParsedSample| x@),
            label_map(extra@),
        ),
{
    let ghost em = label_map(extra@);
    let ghost svs = ss@.map_values(|x: ParsedSample| x@);
    let mut j: usize = 0;
    assert(svs.take(0).len() == 0);
    while j < ss.len()
        invariant
            j <= ss@.len(),
            em == label_map(extra@),
            is_sorted(samples@),
            is_sorted(extra@),
            forall|j: int| 0 <= j < ss@.len() ==> is_sorted(#[trigger] ss@[j].labels@),
            svs == ss@.map_values(|x: ParsedSample| x@),
            view_map(samples@) == apply_samples(view_map(old(samples)@), svs.take(j as int), em),
        decreases ss.len() - j,
    {
        let ghost before = samples@;
        let key = identity_key(&ss[j].labels, extra);
        let sv = SampleValue { value: copy_bytes(&ss[j].value), timestamp: copy_bytes(&ss[j].timestamp) };
        let ghost kv = key@;
        let ghost svv = sv;
        upsert(samples, key, sv);
        proof {
            lemma_view_map_store(before, samples@, kv, svv);
            let t = svs.take(j + 1);
            assert(t.drop_last() =~= svs.take(j as int));
            assert(t.last() == ss@[j as int]@);
        }
        j = j + 1;
    }
    assert(svs.take(j as int) =~= svs);
}

impl MetricStore {
    /// Families sorted by name, each family's samples sorted by identity.
    pub open spec fn wf(&self) -> bool {
        &&& is_sorted(self.families@)
        &&& forall|k: Seq<u8>| #[trigger]
            lookup(self.families@, k) matches Some(f) ==> is_sorted(f.samples@)
    }

    /// The store as exposition text: families by name, each family's samples by label
    /// identity.
    pub fn render(&self) -> (r: Vec<u8>)
        ensures
            r@ == render_families(self.families@),
    {
        let mut out: Vec<u8> = Vec::new();
        let mut i: usize = 0;
        assert(self.families@.take(0).len() == 0);
        assert(out@ =~= render_families(self.families@.take(0)));
        while i < self.families.len()
            invariant
                i <= self.families@.len(),
                out@ == render_families(self.families@.take(i as int)),
            decreases self.families.len() - i,
        {
            append_family(&mut out, &self.families[i].0, &self.families[i].1);
            proof {
                let t = self.families@.take(i + 1);
                assert(t.drop_last() =~= self.families@.take(i as int));
                assert(t.last() == self.families@[i as int]);
            }
            i = i + 1;
        }
        assert(self.families@.take(i as int) =~= self.families@);
        out
    }

    /// Merges one parsed family.
    fn merge_family(&mut self, pf: &ParsedFamily, extra: &LabelList)
        requires
            old(self).wf(),
            is_sorted(extra@),
            forall|j: int| 0 <= j < pf.samples@.len() ==> is_sorted(#[trigger] pf.samples@[j].labels@),
        ensures
            final(self).wf(),
            final(self)@ == apply_family(old(self)@, pf@, label_map(extra@)),
    {
        let ghost o = self.families@;
        match find_slot(&self.families, &pf.name) {
            Ok(i) => {
                proof {
                    crate::keyed::lemma_lookup_at(o, i as int);
                }
                let (k, mut fam) = self.families.remove(i);
                store_samples(&mut fam.samples, &pf.samples, extra);
                let ghost famv = fam;
                self.families.insert(i, (k, fam));
                proof {
                    assert(self.families@ =~= o.update(i as int, (o[i as int].0, famv)));
                    lemma_replace_at(o, self.families@, i as int, famv);
                    lemma_view_map_store(o, self.families@, pf.name@, famv);
                    assert(famv@ =~= FamilyView {
                        kind: o[i as int].1.kind,
                        help: o[i as int].1.help@,
                        samples: apply_samples(o[i as int].1@.samples, pf@.samples, label_map(extra@)),
                    });
                }
            },
            Err(_) => {
                let mut fam = Family { kind: pf.kind, help: copy_bytes(&pf.help), samples: Vec::new() };
                proof {
                    assert(view_map(fam.samples@) =~= Map::<Seq<u8>, (Seq<u8>, Seq<u8>)>::empty());
                }
                store_samples(&mut fam.samples, &pf.samples, extra);
                let name = copy_bytes(&pf.name);
                let ghost famv = fam;
                upsert(&mut self.families, name, fam);
                proof {
                    lemma_view_map_store(o, self.families@, pf.name@, famv);
                }
            },
        }
    }

    /// Merges a parsed push with the labels that its path names. All or nothing: where
    /// a family's declared type clashes with the stored one, nothing is stored.
    pub fn merge(&mut self, push: &Vec<ParsedFamily>, extra: &LabelList) -> (r: Result<
        (),
        AggregationError,
    >)
        requires
            old(self).wf(),
            is_sorted(extra@),
            push_wf(push@),
        ensures
            final(self).wf(),
            r.is_err() <==> push_conflicts(old(self)@, push_view(push@)),
            r matches Err(e) ==> e is TypeConflict,
            r.is_err() ==> final(self)@ == old(self)@,
            r.is_ok() ==> final(self)@ == apply_push(old(self)@, push_view(push@), label_map(extra@)),
    {
        let mut i: usize = 0;
        while i < push.len()
            invariant
                i <= push@.len(),
                self.wf(),
                forall|j: int| 0 <= j < i ==> !conflicts(self@, #[trigger] push_view(push@)[j]),
            decreases push.len() - i,
        {
            match find_slot(&self.families, &push[i].name) {
                Ok(j) => {
                    proof {
                        crate::keyed::lemma_lookup_at(self.families@, j as int);
                    }
                    if push[i].kind != MetricKind::Untyped && push[i].kind != self.families[j].1.kind {
                        let name = copy_bytes(&push[i].name);
                        assert(conflicts(self@, push_view(push@)[i as int]));
                        return Err(AggregationError::TypeConflict(name));
                    }
                },
                Err(_) => {},
            }
            i = i + 1;
        }
        let ghost st0 = self@;
        let ghost pv = push_view(push@);
        let mut i: usize = 0;
        assert(pv.take(0).len() == 0);
        while i < push.len()
            invariant
                i <= push@.len(),
                self.wf(),
                is_sorted(extra@),
                push_wf(push@),
                pv == push_view(push@),
                self@ == apply_push(st0, pv.take(i as int), label_map(extra@)),
            decreases push.len() - i,
        {
            self.merge_family(&push[i], extra);
            proof {
                let t = pv.take(i + 1);
                assert(t.drop_last() =~= pv.take(i as int));
                assert(t.last() == push@[i as int]@);
            }
            i = i + 1;
        }
        assert(pv.take(i as int) =~= pv);
        Ok(())
    }

    pub fn new() -> (r: MetricStore)
        ensures
            r.wf(),
            r@ == Map::<Seq<u8>, FamilyView>::empty(),
    {
        let r = MetricStore { families: Vec::new() };
        assert(r@ =~= Map::<Seq<u8>, FamilyView>::empty());
        r
    }
}

} // verus!
