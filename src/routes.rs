//! What a push request does: where it goes, and what the local node applies.
use vstd::prelude::*;
use crate::exposition::{parse, parse_spec};
use crate::keyed::{find_slot, is_sorted, lemma_lookup_at};
use crate::labels::{append_bytes, label_map, labels_from_path, path_labels, LabelList, SLASH};
use crate::router::{copy_bytes, owner, ClusterConfig};
use crate::store::{apply_push, push_conflicts, AggregationError, MetricStore};

verus! {

/// The request layer's configuration: the cluster, when this node is one of several.
pub struct RoutesConfig {
    pub cluster_conf: Option<ClusterConfig>,
}

impl RoutesConfig {
    pub open spec fn wf(&self) -> bool {
        self.cluster_conf matches Some(c) ==> c.wf()
    }
}

/// What to do with a push.
#[derive(Debug)]
pub enum IngestAction {
    /// Send the body unchanged to this peer.
    Forward(Vec<u8>),
    /// Merge it here.
    Local,
}

/// `job`.
pub open spec fn job_name() -> Seq<u8> {
    seq![0x6au8, 0x6f, 0x62]
}

/// The routing key of a push: its `job` label, or the empty string.
pub open spec fn routing_key(labels: Map<Seq<u8>, Seq<u8>>) -> Seq<u8> {
    if labels.contains_key(job_name()) {
        labels[job_name()]
    } else {
        Seq::empty()
    }
}

/// The routing key of a label list.
pub fn job_key(labels: &LabelList) -> (r: Vec<u8>)
    requires
        is_sorted(labels@),
    ensures
        r@ == routing_key(label_map(labels@)),
{
    let job = vec![0x6au8, 0x6f, 0x62];
    assert(job@ =~= job_name());
    match find_slot(labels, &job) {
        Ok(i) => {
            proof {
                lemma_lookup_at(labels@, i as int);
            }
            copy_bytes(&labels[i].1)
        },
        Err(_) => Vec::new(),
    }
}

/// Where a push with these path labels goes: to the peer that owns its job when that
/// peer is not this node, else here.
pub fn plan_ingest(conf: &RoutesConfig, labels: &LabelList) -> (r: IngestAction)
    requires
        conf.wf(),
        is_sorted(labels@),
    ensures
        match conf.cluster_conf {
            None => r is Local,
            Some(c) => {
                let p = owner(c.peer_views(), routing_key(label_map(labels@)));
                if p == c.self_addr@ {
                    r is Local
                } else {
                    r matches IngestAction::Forward(q) && q@ == p
                }
            },
        },
{
    match &conf.cluster_conf {
        None => IngestAction::Local,
        Some(c) => {
            let key = job_key(labels);
            let peer = c.get_peer_for_key(&key);
            if c.is_self(&peer) {
                IngestAction::Local
            } else {
                IngestAction::Forward(peer)
            }
        },
    }
}

/// The path labels of a push and what to do with it.
pub fn route_push(conf: &RoutesConfig, tail: &Vec<u8>) -> (r: (LabelList, IngestAction))
    requires
        conf.wf(),
    ensures
        is_sorted(r.0@),
        label_map(r.0@) == path_labels(tail@),
        match conf.cluster_conf {
            None => r.1 is Local,
            Some(c) => {
                let p = owner(c.peer_views(), routing_key(path_labels(tail@)));
                if p == c.self_addr@ {
                    r.1 is Local
                } else {
                    r.1 matches IngestAction::Forward(q) && q@ == p
                }
            },
        },
{
    let labels = labels_from_path(tail);
    let action = plan_ingest(conf, &labels);
    (labels, action)
}

/// The address a push is forwarded to: the peer, a slash, and the push's own path suffix.
pub fn forward_url(peer: &Vec<u8>, tail: &Vec<u8>) -> (r: Vec<u8>)
    ensures
        r@ == peer@ + seq![SLASH] + tail@,
{
    let mut out = copy_bytes(peer);
    out.push(SLASH);
    append_bytes(&mut out, tail);
    out
}

/// Parses a push body and merges it with the path labels `extra`. A body that does not
/// parse is refused with its parse error; a push that clashes with a stored type is
/// refused with `TypeConflict`; either way the store is left as it was. Otherwise the
/// parsed families are merged.
pub fn parse_and_merge(store: &mut MetricStore, body: &Vec<u8>, extra: &LabelList) -> (r: Result<
    (),
    AggregationError,
>)
    requires
        old(store).wf(),
        is_sorted(extra@),
    ensures
        final(store).wf(),
        match parse_spec(body@) {
            Err(e) => r == Err::<(), AggregationError>(AggregationError::Parse(e)) && final(store)@
                == old(store)@,
            Ok(fs) => if push_conflicts(old(store)@, fs) {
                r matches Err(AggregationError::TypeConflict(_)) && final(store)@ == old(store)@
            } else {
                r is Ok && final(store)@ == apply_push(old(store)@, fs, label_map(extra@))
            },
        },
{
    match parse(body) {
        Err(e) => Err(AggregationError::Parse(e)),
        Ok(fs) => store.merge(&fs, extra),
    }
}

} // verus!
