//! Cluster routing: maps a routing key to the peer that owns it by rendezvous
//! (highest-random-weight) hashing, so that a key moves only when its owner leaves or
//! a new peer outranks it.
use vstd::prelude::*;

verus! {

pub const FNV_OFFSET: u64 = 0xcbf29ce484222325;

pub const FNV_PRIME: u64 = 0x100000001b3;

/// Separator between peer and key inside the hashed string.
pub const SCORE_SEPARATOR: u8 = 0x2f;

/// One step of 64-bit FNV-1a.
pub open spec fn fnv_step(h: u64, b: u8) -> u64 {
    (((h ^ (b as u64)) as nat * FNV_PRIME as nat) % 0x1_0000_0000_0000_0000nat) as u64
}

/// 64-bit FNV-1a of `s`, starting from state `h`.
pub open spec fn fnv_from(h: u64, s: Seq<u8>) -> u64
    decreases s.len(),
{
    if s.len() == 0 {
        h
    } else {
        fnv_step(fnv_from(h, s.drop_last()), s.last())
    }
}

pub proof fn lemma_fnv_concat(h: u64, a: Seq<u8>, b: Seq<u8>)
    ensures
        fnv_from(h, a + b) == fnv_from(fnv_from(h, a), b),
    decreases b.len(),
{
    if b.len() == 0 {
        assert(a + b =~= a);
    } else {
        assert((a + b).drop_last() =~= a + b.drop_last());
        lemma_fnv_concat(h, a, b.drop_last());
    }
}

pub open spec fn mul64(a: u64, b: u64) -> u64 {
    ((a as nat * b as nat) % 0x1_0000_0000_0000_0000nat) as u64
}

/// Spreads the bits of a hash (the 64-bit finalizer of MurmurHash3), so that the
/// weights of peers whose names differ in one byte are not ordered alike for every key.
pub open spec fn mix64(x: u64) -> u64 {
    let a = x ^ (x >> 33u64);
    let b = mul64(a, 0xff51afd7ed558ccd);
    let c = b ^ (b >> 33u64);
    let d = mul64(c, 0xc4ceb9fe1a85ec53);
    d ^ (d >> 33u64)
}

/// The weight of `peer` for `key`.
pub open spec fn score(peer: Seq<u8>, key: Seq<u8>) -> u64 {
    mix64(fnv_from(FNV_OFFSET, peer + seq![SCORE_SEPARATOR] + key))
}

/// Spreads the bits of a hash.
pub fn mix(x: u64) -> (r: u64)
    ensures
        r == mix64(x),
{
    let a = x ^ (x >> 33u64);
    let b = a.wrapping_mul(0xff51afd7ed558ccd);
    let c = b ^ (b >> 33u64);
    let d = c.wrapping_mul(0xc4ceb9fe1a85ec53);
    d ^ (d >> 33u64)
}

/// Index of the highest-weighted peer among the first `n`; the earlier one on a tie.
pub open spec fn best_among(peers: Seq<Seq<u8>>, key: Seq<u8>, n: int) -> int
    decreases n,
{
    if n <= 1 {
        0
    } else {
        let b = best_among(peers, key, n - 1);
        if score(peers[n - 1], key) > score(peers[b], key) {
            n - 1
        } else {
            b
        }
    }
}

/// The peer that owns `key`.
pub open spec fn owner(peers: Seq<Seq<u8>>, key: Seq<u8>) -> Seq<u8> {
    peers[best_among(peers, key, peers.len() as int)]
}

pub proof fn lemma_best_in_range(peers: Seq<Seq<u8>>, key: Seq<u8>, n: int)
    requires
        1 <= n,
    ensures
        0 <= best_among(peers, key, n) < n,
    decreases n,
{
    if n > 1 {
        lemma_best_in_range(peers, key, n - 1);
    }
}

/// Adding a peer moves a key only onto the new peer: every other key keeps its owner.
pub proof fn lemma_join_moves_only_to_new_peer(peers: Seq<Seq<u8>>, joined: Seq<u8>, key: Seq<u8>)
    requires
        peers.len() > 0,
    ensures
        owner(peers.push(joined), key) == owner(peers, key) || owner(peers.push(joined), key)
            == joined,
{
    let grown = peers.push(joined);
    assert forall|n: int| 1 <= n <= peers.len() implies best_among(grown, key, n) == best_among(
        peers,
        key,
        n,
    ) by {
        lemma_best_stable_prefix(peers, grown, key, n);
    }
    lemma_best_in_range(peers, key, peers.len() as int);
}

proof fn lemma_best_stable_prefix(a: Seq<Seq<u8>>, b: Seq<Seq<u8>>, key: Seq<u8>, n: int)
    requires
        1 <= n <= a.len(),
        n <= b.len(),
        forall|i: int| 0 <= i < n ==> a[i] == b[i],
    ensures
        best_among(a, key, n) == best_among(b, key, n),
    decreases n,
{
    if n > 1 {
        lemma_best_stable_prefix(a, b, key, n - 1);
        lemma_best_in_range(a, key, n - 1);
    }
}

/// Continues an FNV-1a hash from state `h` over `s`.
pub fn hash_extend(h: u64, s: &Vec<u8>) -> (r: u64)
    ensures
        r == fnv_from(h, s@),
{
    let mut acc: u64 = h;
    let mut i: usize = 0;
    while i < s.len()
        invariant
            i <= s@.len(),
            acc == fnv_from(h, s@.take(i as int)),
        decreases s.len() - i,
    {
        assert(s@.take(i + 1).drop_last() =~= s@.take(i as int));
        acc = (acc ^ (s[i] as u64)).wrapping_mul(FNV_PRIME);
        i = i + 1;
    }
    assert(s@.take(i as int) =~= s@);
    acc
}

/// The weight of `peer` for `key`.
pub fn peer_score(peer: &Vec<u8>, key: &Vec<u8>) -> (r: u64)
    ensures
        r == score(peer@, key@),
{
    let h1 = hash_extend(FNV_OFFSET, peer);
    let h2 = (h1 ^ (SCORE_SEPARATOR as u64)).wrapping_mul(FNV_PRIME);
    let h3 = hash_extend(h2, key);
    proof {
        let sep = seq![SCORE_SEPARATOR];
        assert((peer@ + sep).drop_last() =~= peer@);
        lemma_fnv_concat(FNV_OFFSET, peer@ + sep, key@);
    }
    mix(h3)
}

/// The nodes of a cluster: this node's address and the addresses of all nodes, itself
/// among them.
pub struct ClusterConfig {
    pub self_addr: Vec<u8>,
    pub peers: Vec<Vec<u8>>,
}

/// The views of a list of byte strings.
pub open spec fn views_of(v: Seq<Vec<u8>>) -> Seq<Seq<u8>> {
    v.map_values(|x: Vec<u8>| x@)
}

/// A copy of a byte string.
pub fn copy_bytes(b: &Vec<u8>) -> (r: Vec<u8>)
    ensures
        r@ == b@,
{
    let mut r: Vec<u8> = Vec::new();
    let mut i: usize = 0;
    while i < b.len()
        invariant
            i <= b@.len(),
            r@ == b@.take(i as int),
        decreases b.len() - i,
    {
        r.push(b[i]);
        assert(b@.take(i + 1) =~= b@.take(i as int).push(b@[i as int]));
        i = i + 1;
    }
    assert(b@.take(i as int) =~= b@);
    r
}

impl ClusterConfig {
    pub open spec fn peer_views(&self) -> Seq<Seq<u8>> {
        views_of(self.peers@)
    }

    /// This node is one of the peers.
    pub open spec fn wf(&self) -> bool {
        self.peer_views().contains(self.self_addr@)
    }

    /// Builds the configuration, adding this node to the peers where the list lacks it.
    pub fn new(self_addr: Vec<u8>, peers: Vec<Vec<u8>>) -> (r: ClusterConfig)
        ensures
            r.wf(),
            r.self_addr@ == self_addr@,
            views_of(peers@).contains(self_addr@) ==> r.peer_views() == views_of(peers@),
            !views_of(peers@).contains(self_addr@) ==> r.peer_views() == views_of(peers@).push(
                self_addr@,
            ),
    {
        let mut peers = peers;
        let ghost given = views_of(peers@);
        let mut i: usize = 0;
        let mut found = false;
        while i < peers.len()
            invariant
                i <= peers@.len(),
                given == views_of(peers@),
                found <==> exists|j: int| 0 <= j < i && peers@[j]@ == self_addr@,
            decreases peers.len() - i,
        {
            if compare_equal(&peers[i], &self_addr) {
                found = true;
            }
            i = i + 1;
        }
        if !found {
            let own = copy_bytes(&self_addr);
            peers.push(own);
            proof {
                assert(views_of(peers@) =~= given.push(self_addr@));
                assert(views_of(peers@)[given.len() as int] == self_addr@);
                assert forall|j: int| 0 <= j < given.len() implies given[j] != self_addr@ by {
                    assert(given[j] == peers@[j]@);
                }
            }
        } else {
            proof {
                let j = choose|j: int| 0 <= j < i && peers@[j]@ == self_addr@;
                assert(given[j] == self_addr@);
            }
        }
        ClusterConfig { self_addr, peers }
    }

    /// The peer that owns `key`.
    pub fn get_peer_for_key(&self, key: &Vec<u8>) -> (r: Vec<u8>)
        requires
            self.wf(),
        ensures
            r@ == owner(self.peer_views(), key@),
    {
        let ghost pv = self.peer_views();
        let mut best: usize = 0;
        let mut best_score: u64 = peer_score(&self.peers[0], key);
        let mut i: usize = 1;
        while i < self.peers.len()
            invariant
                1 <= i <= self.peers@.len(),
                pv == self.peer_views(),
                best as int == best_among(pv, key@, i as int),
                best < i,
                best_score == score(pv[best as int], key@),
            decreases self.peers.len() - i,
        {
            let s = peer_score(&self.peers[i], key);
            assert(pv[i as int] == self.peers@[i as int]@);
            if s > best_score {
                best = i;
                best_score = s;
            }
            i = i + 1;
        }
        assert(pv[best as int] == self.peers@[best as int]@);
        copy_bytes(&self.peers[best])
    }

    /// Whether `peer` is this node.
    pub fn is_self(&self, peer: &Vec<u8>) -> (r: bool)
        ensures
            r == (peer@ == self.self_addr@),
    {
        compare_equal(peer, &self.self_addr)
    }
}

/// Whether two byte strings are equal.
pub fn compare_equal(a: &Vec<u8>, b: &Vec<u8>) -> (r: bool)
    ensures
        r == (a@ == b@),
{
    crate::keyed::compare_bytes(a, b) == 0
}

} // verus!
