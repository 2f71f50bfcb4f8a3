//! The discovery behavior: one object that owns the routing table, the
//! peer map, the provider table and the active lookups, consumes transport
//! events, and emits transport actions when polled.

use crate::addresses::{any_connected, has_addr, Multiaddr, PeerId};
use crate::crypto::PublicKey;
use crate::kad_key::{
    bucket_of, dist_le, dist_lt, gen_random_hash, node_key, node_key_spec, KadKey, KAD_KEY_LEN, NUM_BUCKETS,
};
use crate::kbucket::{
    bucket_oldest, count_bucket, peer_view, table_preserved_except, KBucketsTable, NodeInfo,
    Update, BUCKET_SIZE,
};
use crate::peer_map::{lru_capacity, lru_contents, lru_get, lru_insert, lru_new, lru_no_expiry,
    PeerCache};
use crate::query::{
    count_waiting, failed_only, has_entry, has_succeeded, has_waiting, query_measure, query_quiet,
    target_hash, QueryState, QueryStep, QueryTarget,
};
use vstd::prelude::*;

verus! {

/// Greatest number of requests one lookup keeps in flight.
pub const ALPHA: usize = 3;

/// Size of a lookup's result window.
pub const NUM_RESULTS: usize = 20;

/// How long a single request may wait for its reply.
pub const RPC_TIMEOUT_MS: u64 = 8_000;

/// How often this node re-announces the keys it provides.
pub const PROVIDER_REFRESH_MS: u64 = 60_000;

/// Capacity of the peer map: the whole table plus one pending slot per
/// bucket.
pub const PEER_CACHE_CAPACITY: usize = 512 * (20 + 1);

/// Handle of one lookup.
#[derive(Clone, Copy, Debug, PartialEq, Eq, Structural)]
pub struct QueryId(pub u64);

/// How the reporter of a node is connected to it.
#[derive(Clone, Copy, Debug, PartialEq, Eq, Structural)]
pub enum KadConnectionType {
    Connected,
    NotConnected,
}

/// One node as described on the wire.
#[derive(Clone, Debug)]
pub struct KadPeer {
    pub node_id: PublicKey,
    pub peer_id: Option<PeerId>,
    pub multiaddrs: Vec<Multiaddr>,
    pub connection_ty: KadConnectionType,
}

/// A message this node sends to a peer's protocol handler.
#[derive(Debug)]
pub enum KademliaHandlerIn {
    FindNodeReq { key: KadKey, user_data: QueryId },
    FindNodeRes { closer_peers: Vec<KadPeer>, request_id: u64 },
    GetProvidersReq { key: KadKey, user_data: QueryId },
    GetProvidersRes { closer_peers: Vec<KadPeer>, provider_peers: Vec<KadPeer>, request_id: u64 },
    AddProvider { key: KadKey, provider_peer: KadPeer },
}

/// A message a peer's protocol handler delivered to this node.
#[derive(Debug)]
pub enum KademliaHandlerEvent {
    FindNodeReq { key: KadKey, request_id: u64 },
    FindNodeRes { closer_peers: Vec<KadPeer>, user_data: QueryId },
    GetProvidersReq { key: KadKey, request_id: u64 },
    GetProvidersRes { closer_peers: Vec<KadPeer>, provider_peers: Vec<KadPeer>, user_data: QueryId },
    QueryError { user_data: QueryId },
    AddProvider { key: KadKey, provider_peer: KadPeer },
}

/// What the behavior reports to its driver.
#[derive(Debug)]
pub enum KademliaOut {
    /// A node was mentioned on the wire.
    Discovered {
        node_id: PublicKey,
        peer_id: Option<PeerId>,
        addresses: Vec<Multiaddr>,
        ty: KadConnectionType,
    },
    /// A node lookup completed.
    FindNodeResult { key: KadKey, closer_peers: Vec<PublicKey> },
    /// A provider lookup completed.
    GetProvidersResult {
        key: KadKey,
        closer_peers: Vec<PublicKey>,
        provider_peers: Vec<PublicKey>,
    },
}

/// An action the driver must carry out on the transport.
#[derive(Debug)]
pub enum NetworkAction {
    GenerateEvent(KademliaOut),
    DialPeer { peer_id: PeerId },
    SendEvent { peer_id: PeerId, event: KademliaHandlerIn },
}

/// How a connection to a peer came about.
#[derive(Debug)]
pub enum ConnectedPoint {
    /// This node dialed the peer on this address.
    Dialer { address: Multiaddr },
    /// The peer dialed this node.
    Listener,
}

/// Why a lookup was started.
#[derive(Clone, Debug)]
pub enum QueryPurpose {
    Initialization,
    UserRequest,
    AddProvider(KadKey),
}

/// Whether the provider table has an entry for the key.
pub open spec fn prov_has(ps: Seq<(KadKey, Vec<PublicKey>)>, k: Seq<u8>) -> bool {
    exists|i: int| 0 <= i < ps.len() && (#[trigger] ps[i]).0@ == k
}

/// The position of the provider entry for the key.
pub open spec fn prov_idx(ps: Seq<(KadKey, Vec<PublicKey>)>, k: Seq<u8>) -> int {
    choose|i: int| 0 <= i < ps.len() && (#[trigger] ps[i]).0@ == k
}

/// The recorded providers of the key.
pub open spec fn prov_of(ps: Seq<(KadKey, Vec<PublicKey>)>, k: Seq<u8>) -> Seq<PublicKey> {
    ps[prov_idx(ps, k)].1@
}

/// Each key has at most one provider entry.
pub open spec fn prov_unique(ps: Seq<(KadKey, Vec<PublicKey>)>) -> bool {
    forall|i: int, j: int| 0 <= i < j < ps.len() ==> ps[i].0@ != ps[j].0@
}

/// With unique keys, any position holding `k` is the position looked up.
pub proof fn lemma_prov_lookup(ps: Seq<(KadKey, Vec<PublicKey>)>, k: Seq<u8>, i: int)
    requires
        prov_unique(ps),
        0 <= i < ps.len(),
        ps[i].0@ == k,
    ensures
        prov_idx(ps, k) == i,
        prov_has(ps, k),
        prov_of(ps, k) == ps[i].1@,
{
    assert(prov_has(ps, k));
    let j = prov_idx(ps, k);
    if i < j {
        assert(ps[i].0@ != ps[j].0@);
    } else if j < i {
        assert(ps[j].0@ != ps[i].0@);
    }
}

/// A lookup purpose is well formed when its announcement key, if any, is
/// full width.
pub open spec fn purpose_wf(p: QueryPurpose) -> bool {
    match p {
        QueryPurpose::AddProvider(k) => k@.len() == KAD_KEY_LEN,
        _ => true,
    }
}

/// Whether `e` is the request a lookup with handle `qid` and target `t`
/// sends to a candidate.
pub open spec fn is_rpc_request_for(e: KademliaHandlerIn, t: QueryTarget, qid: u64) -> bool {
    match e {
        KademliaHandlerIn::FindNodeReq { key, user_data } => t is FindPeer && key@ == target_hash(
            t,
        ) && user_data.0 == qid,
        KademliaHandlerIn::GetProvidersReq { key, user_data } => t is GetProviders && key@
            == target_hash(t) && user_data.0 == qid,
        _ => false,
    }
}

/// Whether `a` re-sends the request of the lookup `(t, qid)` to `peer`.
pub open spec fn action_is_resend(a: NetworkAction, peer: Seq<u8>, t: QueryTarget, qid: u64) -> bool {
    match a {
        NetworkAction::SendEvent { peer_id, event } => peer_id@ == peer && is_rpc_request_for(
            event,
            t,
            qid,
        ),
        _ => false,
    }
}

/// Whether, beyond the first `from_len` actions, `q` holds a re-send of
/// the lookup `(t, qid)` to `peer`.
pub open spec fn queued_resend_for(
    q: Seq<NetworkAction>,
    from_len: int,
    peer: Seq<u8>,
    t: QueryTarget,
    qid: u64,
) -> bool {
    exists|ql: int| from_len <= ql < q.len() && #[trigger] action_is_resend(q[ql], peer, t, qid)
}

/// Whether `a` sends exactly the event `e` to `peer`.
pub open spec fn action_sends(a: NetworkAction, peer: Seq<u8>, e: KademliaHandlerIn) -> bool {
    match a {
        NetworkAction::SendEvent { peer_id, event } => peer_id@ == peer && event == e,
        _ => false,
    }
}

/// When a node `n` announcing itself obliges a probe of its bucket's
/// oldest member: `n` is fresh, its bucket is at depth, and the oldest
/// member is still marked connected with a known transport identity to
/// dial.
pub open spec fn probe_dial_due(b: Kademlia, n: PublicKey) -> bool {
    &&& n != b.spec_my_id()
    &&& !b.table().contains_node(n)
    &&& count_bucket(
        b.table().nodes_seq(),
        b.spec_my_id(),
        bucket_of(node_key_spec(n), node_key_spec(b.spec_my_id())),
    ) == BUCKET_SIZE
    &&& b.table().spec_connected(
        bucket_oldest(
            b.table().nodes_seq(),
            b.spec_my_id(),
            bucket_of(node_key_spec(n), node_key_spec(b.spec_my_id())),
        ),
    )
    &&& peer_view(
        b.table().spec_info(
            bucket_oldest(
                b.table().nodes_seq(),
                b.spec_my_id(),
                bucket_of(node_key_spec(n), node_key_spec(b.spec_my_id())),
            ),
        ),
    ) is Some
}

/// Whether, beyond `pre`'s queued actions, `post` queues a dial of the
/// transport identity recorded for the oldest member of `n`'s bucket.
pub open spec fn probe_dial_queued(pre: Kademlia, post: Kademlia, n: PublicKey) -> bool {
    exists|ql: int|
        pre.queued().len() <= ql < post.queued().len() && match (#[trigger] post.queued()[ql]) {
            NetworkAction::DialPeer { peer_id } => Some(peer_id@) == peer_view(
                pre.table().spec_info(
                    bucket_oldest(
                        pre.table().nodes_seq(),
                        pre.spec_my_id(),
                        bucket_of(node_key_spec(n), node_key_spec(pre.spec_my_id())),
                    ),
                ),
            ),
            _ => false,
        }
}

/// The combined remaining work of a list of active lookups.
pub open spec fn queries_measure(qs: Seq<(u64, QueryState, QueryPurpose, Vec<PublicKey>)>) -> int
    decreases qs.len(),
{
    if qs.len() == 0 {
        0
    } else {
        queries_measure(qs.drop_last()) + query_measure(qs.last().1.entries())
    }
}

/// The combined measure is never negative.
pub proof fn lemma_queries_measure_nonneg(qs: Seq<(u64, QueryState, QueryPurpose, Vec<PublicKey>)>)
    ensures
        0 <= queries_measure(qs),
    decreases qs.len(),
{
    if qs.len() > 0 {
        lemma_queries_measure_nonneg(qs.drop_last());
        crate::query::lemma_counts_nonneg(qs.last().1.entries());
    }
}

/// Replacing one lookup shifts the combined measure by the difference of
/// the two lookups' measures.
pub proof fn lemma_queries_measure_update(
    qs: Seq<(u64, QueryState, QueryPurpose, Vec<PublicKey>)>,
    i: int,
    e: (u64, QueryState, QueryPurpose, Vec<PublicKey>),
)
    requires
        0 <= i < qs.len(),
    ensures
        queries_measure(qs.update(i, e)) == queries_measure(qs) - query_measure(
            qs[i].1.entries(),
        ) + query_measure(e.1.entries()),
    decreases qs.len(),
{
    if i == qs.len() - 1 {
        assert(qs.update(i, e).drop_last() =~= qs.drop_last());
        assert(qs.update(i, e).last() == e);
    } else {
        assert(qs.update(i, e).drop_last() =~= qs.drop_last().update(i, e));
        assert(qs.update(i, e).last() == qs.last());
        lemma_queries_measure_update(qs.drop_last(), i, e);
    }
}

/// Removing one lookup lowers the combined measure by its measure.
pub proof fn lemma_queries_measure_remove(
    qs: Seq<(u64, QueryState, QueryPurpose, Vec<PublicKey>)>,
    i: int,
)
    requires
        0 <= i < qs.len(),
    ensures
        queries_measure(qs.remove(i)) == queries_measure(qs) - query_measure(qs[i].1.entries()),
    decreases qs.len(),
{
    if i == qs.len() - 1 {
        assert(qs.remove(i) =~= qs.drop_last());
    } else {
        assert(qs.remove(i).drop_last() =~= qs.drop_last().remove(i));
        assert(qs.remove(i).last() == qs.last());
        lemma_queries_measure_remove(qs.drop_last(), i);
    }
}

/// Lookup-by-lookup bounds on the measures bound the combined measure.
pub proof fn lemma_queries_measure_mono(
    pre: Seq<(u64, QueryState, QueryPurpose, Vec<PublicKey>)>,
    post: Seq<(u64, QueryState, QueryPurpose, Vec<PublicKey>)>,
)
    requires
        post.len() == pre.len(),
        forall|l: int|
            0 <= l < pre.len() ==> query_measure((#[trigger] post[l]).1.entries())
                <= query_measure(pre[l].1.entries()),
    ensures
        queries_measure(post) <= queries_measure(pre),
    decreases pre.len(),
{
    if pre.len() > 0 {
        assert(query_measure(post.last().1.entries()) <= query_measure(pre.last().1.entries()));
        lemma_queries_measure_mono(pre.drop_last(), post.drop_last());
    }
}

/// Whether some scheduled lookup re-announces the provided key `k`: a
/// peer search for `k` whose purpose is to send `AddProvider` for `k`.
pub open spec fn announce_pending(ps: Seq<(u64, QueryTarget, QueryPurpose)>, k: Seq<u8>) -> bool {
    exists|pi: int|
        0 <= pi < ps.len() && (#[trigger] ps[pi]).1 is FindPeer && target_hash(ps[pi].1) == k
            && match ps[pi].2 {
            QueryPurpose::AddProvider(k2) => k2@ == k,
            _ => false,
        }
}

/// Whether some active lookup re-announces the provided key `k`.
pub open spec fn announce_active(
    qs: Seq<(u64, QueryState, QueryPurpose, Vec<PublicKey>)>,
    k: Seq<u8>,
) -> bool {
    exists|qi: int|
        0 <= qi < qs.len() && (#[trigger] qs[qi]).1.spec_target() is FindPeer && target_hash(
            qs[qi].1.spec_target(),
        ) == k && match qs[qi].2 {
            QueryPurpose::AddProvider(k2) => k2@ == k,
            _ => false,
        }
}

/// Whether `a` announces this node as a provider: a send of
/// `AddProvider` for a full-width key whose provider description
/// faithfully describes this node itself.
pub open spec fn action_announces(
    a: NetworkAction,
    my: PublicKey,
    table: KBucketsTable,
    local: Seq<u8>,
    external: Seq<Multiaddr>,
) -> bool {
    match a {
        NetworkAction::SendEvent { peer_id, event } => match event {
            KademliaHandlerIn::AddProvider { key, provider_peer } => key@.len() == KAD_KEY_LEN
                && kad_peer_describes(my, table, local, external, my, provider_peer),
            _ => false,
        },
        _ => false,
    }
}

/// The transport identity a wire description carries, as plain bytes.
pub open spec fn kad_peer_view(p: KadPeer) -> Option<Seq<u8>> {
    match p.peer_id {
        Some(q) => Some(q@),
        None => None,
    }
}

/// Whether the wire description `p` describes `node_id` faithfully for a
/// node whose own identity is `my`: this node reports its transport
/// identity and external addresses as connected; a known node reports its
/// record; an unknown one reports nothing.
pub open spec fn kad_peer_describes(
    my: PublicKey,
    table: KBucketsTable,
    local: Seq<u8>,
    external: Seq<Multiaddr>,
    node_id: PublicKey,
    p: KadPeer,
) -> bool {
    &&& p.node_id == node_id
    &&& if node_id == my {
        &&& kad_peer_view(p) == Some(local)
        &&& p.multiaddrs@.len() == external.len()
        &&& (forall|i: int|
            0 <= i < external.len() ==> (#[trigger] p.multiaddrs@[i])@ == external[i]@)
        &&& p.connection_ty is Connected
    } else if table.contains_node(node_id) {
        &&& kad_peer_view(p) == peer_view(table.spec_info(node_id))
        &&& p.multiaddrs@.len() == table.spec_info(node_id).addresses@.len()
        &&& (forall|i: int|
            0 <= i < p.multiaddrs@.len() ==> (#[trigger] p.multiaddrs@[i])@ == table.spec_info(
                node_id,
            ).addresses@[i].0)
        &&& (p.connection_ty is Connected <==> any_connected(table.spec_info(node_id).addresses@))
    } else {
        &&& p.peer_id is None
        &&& p.multiaddrs@.len() == 0
        &&& p.connection_ty is NotConnected
    }
}

/// Whether the description list mentions the node.
pub open spec fn kad_listed(cp: Seq<KadPeer>, m: PublicKey) -> bool {
    exists|i: int| 0 <= i < cp.len() && (#[trigger] cp[i]).node_id == m
}

/// A faithful closest-nodes reply: as many of the known nodes and this
/// node itself as fit the result window, each described faithfully,
/// ascending in XOR distance to `t`, pairwise distinct, and leaving out
/// only nodes at least as far as everything included.
pub open spec fn closer_list_ok(
    my: PublicKey,
    table: KBucketsTable,
    local: Seq<u8>,
    external: Seq<Multiaddr>,
    t: Seq<u8>,
    cp: Seq<KadPeer>,
) -> bool {
    &&& cp.len() == if table.nodes_seq().len() + 1 < NUM_RESULTS {
        (table.nodes_seq().len() + 1) as int
    } else {
        NUM_RESULTS as int
    }
    &&& forall|i: int|
        0 <= i < cp.len() ==> kad_peer_describes(
            my,
            table,
            local,
            external,
            (#[trigger] cp[i]).node_id,
            cp[i],
        ) && (table.contains_node(cp[i].node_id) || cp[i].node_id == my)
    &&& forall|i: int, j: int|
        0 <= i < j < cp.len() ==> dist_le(
            node_key_spec((#[trigger] cp[i]).node_id),
            node_key_spec((#[trigger] cp[j]).node_id),
            t,
        )
    &&& forall|i: int, j: int| 0 <= i < j < cp.len() ==> cp[i].node_id != cp[j].node_id
    &&& forall|m: PublicKey|
        #![trigger node_key_spec(m)]
        (table.contains_node(m) || m == my) && !kad_listed(cp, m) ==> forall|i: int|
            0 <= i < cp.len() ==> dist_le(node_key_spec((#[trigger] cp[i]).node_id), node_key_spec(m), t)
}

/// Whether `a` reports the discovery of node `n`.
pub open spec fn action_discovers(a: NetworkAction, n: PublicKey) -> bool {
    match a {
        NetworkAction::GenerateEvent(ev) => match ev {
            KademliaOut::Discovered { node_id, .. } => node_id == n,
            _ => false,
        },
        _ => false,
    }
}

/// Whether the key list holds the key.
pub open spec fn keys_has(ks: Seq<KadKey>, k: Seq<u8>) -> bool {
    exists|i: int| 0 <= i < ks.len() && (#[trigger] ks[i])@ == k
}

/// The discovery behavior.
pub struct Kademlia {
    /// This node's identity.
    my_id: PublicKey,
    /// The routing table.
    kbuckets: KBucketsTable,
    /// Transport identity to node identity, bounded.
    known_peers: PeerCache,
    /// Lookups in progress: handle, state, purpose, and the providers a
    /// provider lookup has accumulated so far.
    active_queries: Vec<(u64, QueryState, QueryPurpose, Vec<PublicKey>)>,
    /// Lookups to start on the next poll.
    queries_to_start: Vec<(u64, QueryTarget, QueryPurpose)>,
    /// Peers the transport is connected to.
    connected_peers: Vec<PeerId>,
    /// Requests waiting for their peer to connect.
    pending_rpcs: Vec<(PublicKey, KademliaHandlerIn)>,
    /// Handle of the next lookup.
    next_query_id: u64,
    /// Requests from peers, answered on the next polls.
    remote_requests: Vec<(PeerId, u64, QueryTarget)>,
    /// Keys mapped to the nodes known to provide them.
    values_providers: Vec<(KadKey, Vec<PublicKey>)>,
    /// Keys this node itself provides.
    providing_keys: Vec<KadKey>,
    /// When the next provider re-announcement is due.
    next_refresh_ms: u64,
    /// Actions queued for the driver.
    queued_events: Vec<NetworkAction>,
    /// Providers reported by peers, folded into the table on the next poll.
    add_provider: Vec<(KadKey, PublicKey)>,
}

impl Kademlia {
    /// This node's identity.
    pub closed spec fn spec_my_id(&self) -> PublicKey {
        self.my_id
    }

    /// The routing table.
    pub closed spec fn table(&self) -> KBucketsTable {
        self.kbuckets
    }

    /// The peer-to-node map's contents.
    pub closed spec fn peers_map(&self) -> Map<Seq<u8>, u64> {
        lru_contents(self.known_peers)
    }

    /// The provider table.
    pub closed spec fn providers(&self) -> Seq<(KadKey, Vec<PublicKey>)> {
        self.values_providers@
    }

    /// The keys this node provides.
    pub closed spec fn providing(&self) -> Seq<KadKey> {
        self.providing_keys@
    }

    /// The lookups waiting to start.
    pub closed spec fn pending_queries(&self) -> Seq<(u64, QueryTarget, QueryPurpose)> {
        self.queries_to_start@
    }

    /// The peers the transport is connected to.
    pub closed spec fn connected(&self) -> Seq<PeerId> {
        self.connected_peers@
    }

    /// The lookups in progress.
    pub closed spec fn queries(&self) -> Seq<(u64, QueryState, QueryPurpose, Vec<PublicKey>)> {
        self.active_queries@
    }

    /// The peers' requests waiting to be answered.
    pub closed spec fn remote(&self) -> Seq<(PeerId, u64, QueryTarget)> {
        self.remote_requests@
    }

    /// The reported providers waiting to be folded in.
    pub closed spec fn reported_providers(&self) -> Seq<(KadKey, PublicKey)> {
        self.add_provider@
    }

    /// The actions queued for the driver.
    pub closed spec fn queued(&self) -> Seq<NetworkAction> {
        self.queued_events@
    }

    /// The requests parked until their peer connects.
    pub closed spec fn parked_rpcs(&self) -> Seq<(PublicKey, KademliaHandlerIn)> {
        self.pending_rpcs@
    }

    /// When the next provider re-announcement is due.
    pub closed spec fn spec_next_refresh(&self) -> u64 {
        self.next_refresh_ms
    }

    /// The bound of the peer-to-node map.
    pub closed spec fn peer_capacity(&self) -> int {
        lru_capacity(self.known_peers)
    }

    /// The invariant.  Most importantly: the routing table is owned by
    /// this identity and well formed; provider entries are unique, well
    /// formed and duplicate-free; and every key this node provides lists
    /// this node among its providers.
    pub closed spec fn wf(&self) -> bool {
        &&& self.kbuckets.wf()
        &&& self.kbuckets.spec_my_id() == self.my_id
        &&& lru_no_expiry(self.known_peers)
        &&& lru_contents(self.known_peers).dom().finite()
        &&& lru_capacity(self.known_peers) >= 1
        &&& prov_unique(self.values_providers@)
        &&& forall|i: int|
            0 <= i < self.values_providers@.len() ==> (#[trigger] self.values_providers@[
                i
            ]).0@.len() == KAD_KEY_LEN
        &&& forall|i: int, x: int, y: int|
            #![trigger self.values_providers@[i].1@[x], self.values_providers@[i].1@[y]]
            0 <= i < self.values_providers@.len() && 0 <= x < y
                < self.values_providers@[i].1@.len() ==> self.values_providers@[i].1@[x]
                != self.values_providers@[i].1@[y]
        &&& forall|i: int|
            0 <= i < self.providing_keys@.len() ==> (#[trigger] self.providing_keys@[i])@.len()
                == KAD_KEY_LEN
        &&& forall|k: Seq<u8>|
            keys_has(self.providing_keys@, k) ==> prov_has(self.values_providers@, k) && prov_of(
                self.values_providers@,
                k,
            ).contains(self.my_id)
        &&& forall|i: int|
            0 <= i < self.active_queries@.len() ==> (#[trigger] self.active_queries@[i]).1.wf()
        &&& forall|i: int|
            0 <= i < self.active_queries@.len() ==> (#[trigger] self.active_queries@[
                i
            ]).1.spec_parallelism() == ALPHA && self.active_queries@[i].1.spec_num_results()
                == NUM_RESULTS
        &&& forall|i: int|
            0 <= i < self.queries_to_start@.len() ==> (#[trigger] self.queries_to_start@[
                i
            ]).1.wf()
        &&& forall|i: int|
            0 <= i < self.add_provider@.len() ==> (#[trigger] self.add_provider@[i]).0@.len()
                == KAD_KEY_LEN
        &&& forall|i: int|
            0 <= i < self.remote_requests@.len() ==> (#[trigger] self.remote_requests@[i]).2.wf()
        &&& forall|i: int|
            0 <= i < self.active_queries@.len() ==> purpose_wf(
                (#[trigger] self.active_queries@[i]).2,
            )
        &&& forall|i: int|
            0 <= i < self.queries_to_start@.len() ==> purpose_wf(
                (#[trigger] self.queries_to_start@[i]).2,
            )
    }

    /// Every key this node provides lists this node among its providers.
    pub open spec fn providers_consistent(&self) -> bool {
        forall|k: Seq<u8>|
            keys_has(self.providing(), k) ==> prov_has(self.providers(), k) && prov_of(
                self.providers(),
                k,
            ).contains(self.spec_my_id())
    }

    /// The invariant keeps the provider table consistent.
    pub proof fn lemma_wf_providers_consistent(&self)
        requires
            self.wf(),
        ensures
            self.providers_consistent(),
    {
    }

    /// In a well-formed behavior, no lookup ever has more requests in
    /// flight than its parallelism bound allows.
    pub proof fn lemma_wf_queries_bounded(&self)
        requires
            self.wf(),
        ensures
            forall|i: int|
                0 <= i < self.queries().len() ==> count_waiting(
                    (#[trigger] self.queries()[i]).1.entries(),
                ) <= ALPHA,
    {
    }

    /// Registers a lookup to be started on the next poll.
    fn start_query(&mut self, target: QueryTarget, purpose: QueryPurpose)
        requires
            old(self).wf(),
            target.wf(),
            purpose_wf(purpose),
        ensures
            final(self).wf(),
            final(self).spec_my_id() == old(self).spec_my_id(),
            final(self).table() == old(self).table(),
            final(self).providers() == old(self).providers(),
            final(self).providing() == old(self).providing(),
            final(self).peers_map() == old(self).peers_map(),
            final(self).pending_queries().len() == old(self).pending_queries().len() + 1,
            final(self).pending_queries().last().1 == target,
            final(self).pending_queries().last().2 == purpose,
            final(self).pending_queries().drop_last() == old(self).pending_queries(),
            forall|i: int|
                0 <= i < old(self).pending_queries().len() ==> final(self).pending_queries()[i]
                    == old(self).pending_queries()[i],
            final(self).queries() == old(self).queries(),
            final(self).queued() == old(self).queued(),
            final(self).remote() == old(self).remote(),
            final(self).reported_providers() == old(self).reported_providers(),
            final(self).connected() == old(self).connected(),
            final(self).parked_rpcs() == old(self).parked_rpcs(),
            final(self).spec_next_refresh() == old(self).spec_next_refresh(),
            final(self).peer_capacity() == old(self).peer_capacity(),
            final(self).table() == old(self).table(),
    {
        let query_id = self.next_query_id;
        self.next_query_id = if self.next_query_id < u64::MAX {
            self.next_query_id + 1
        } else {
            0
        };
        self.queries_to_start.push((query_id, target, purpose));
        proof {
            assert(self.queries_to_start@.drop_last() =~= old(self).queries_to_start@);
        }
    }

    /// Creates the behavior and schedules the initialization lookups: one
    /// randomized target per bucket, to populate the routing table.
    pub fn new(local_node_id: PublicKey) -> (r: Kademlia)
        ensures
            r.wf(),
            r.spec_my_id() == local_node_id,
            r.table().nodes_seq().len() == 0,
            r.pending_queries().len() == NUM_BUCKETS,
            forall|l: int|
                0 <= l < NUM_BUCKETS ==> (#[trigger] r.pending_queries()[l]).1 is FindPeer
                    && r.pending_queries()[l].2 is Initialization,
    {
        Kademlia::new_inner(local_node_id, true)
    }

    /// Creates the behavior without the initialization lookups.
    pub fn without_init(local_node_id: PublicKey) -> (r: Kademlia)
        ensures
            r.wf(),
            r.spec_my_id() == local_node_id,
            r.table().nodes_seq().len() == 0,
            r.peers_map().dom() == Set::<Seq<u8>>::empty(),
            r.providers().len() == 0,
            r.queries().len() == 0,
            r.pending_queries().len() == 0,
    {
        Kademlia::new_inner(local_node_id, false)
    }

    /// Shared constructor body.
    fn new_inner(local_node_id: PublicKey, initialize: bool) -> (r: Kademlia)
        ensures
            r.wf(),
            r.spec_my_id() == local_node_id,
            r.table().nodes_seq().len() == 0,
            r.peers_map().dom() == Set::<Seq<u8>>::empty(),
            r.peer_capacity() == PEER_CACHE_CAPACITY,
            r.providers().len() == 0,
            r.providing().len() == 0,
            r.queries().len() == 0,
            r.queued().len() == 0,
            r.remote().len() == 0,
            r.reported_providers().len() == 0,
            r.connected().len() == 0,
            r.parked_rpcs().len() == 0,
            !initialize ==> r.pending_queries().len() == 0,
            initialize ==> r.pending_queries().len() == NUM_BUCKETS && (forall|l: int|
                0 <= l < NUM_BUCKETS ==> (#[trigger] r.pending_queries()[l]).1 is FindPeer
                    && r.pending_queries()[l].2 is Initialization && target_hash(
                    r.pending_queries()[l].1,
                ).len() == KAD_KEY_LEN && (forall|bi: int|
                    0 <= bi < KAD_KEY_LEN - (l + 1) / 8 - 1 ==> #[trigger] target_hash(
                        r.pending_queries()[l].1,
                    )[bi] == node_key_spec(local_node_id)[bi])),
    {
        let kbuckets = KBucketsTable::new(local_node_id);
        let mut behaviour = Kademlia {
            my_id: local_node_id,
            kbuckets,
            known_peers: lru_new(PEER_CACHE_CAPACITY),
            active_queries: Vec::new(),
            queries_to_start: Vec::new(),
            connected_peers: Vec::new(),
            pending_rpcs: Vec::new(),
            next_query_id: 0,
            remote_requests: Vec::new(),
            values_providers: Vec::new(),
            providing_keys: Vec::new(),
            next_refresh_ms: PROVIDER_REFRESH_MS,
            queued_events: Vec::new(),
            add_provider: Vec::new(),
        };
        if initialize {
            let my_hash = node_key(&behaviour.my_id);
            let mut n: usize = 0;
            while n < NUM_BUCKETS
                invariant
                    0 <= n <= NUM_BUCKETS,
                    behaviour.wf(),
                    behaviour.spec_my_id() == local_node_id,
                    behaviour.table().nodes_seq().len() == 0,
                    behaviour.peers_map().dom() == Set::<Seq<u8>>::empty(),
                    behaviour.peer_capacity() == PEER_CACHE_CAPACITY,
                    behaviour.providers().len() == 0,
                    behaviour.providing().len() == 0,
                    behaviour.queries().len() == 0,
                    behaviour.queued().len() == 0,
                    behaviour.remote().len() == 0,
                    behaviour.reported_providers().len() == 0,
                    behaviour.connected().len() == 0,
                    behaviour.parked_rpcs().len() == 0,
                    my_hash.wf(),
                    my_hash@ == node_key_spec(local_node_id),
                    behaviour.pending_queries().len() == n,
                    forall|l: int|
                        0 <= l < n ==> (#[trigger] behaviour.pending_queries()[l]).1 is FindPeer
                            && behaviour.pending_queries()[l].2 is Initialization && target_hash(
                            behaviour.pending_queries()[l].1,
                        ).len() == KAD_KEY_LEN && (forall|bi: int|
                            0 <= bi < KAD_KEY_LEN - (l + 1) / 8 - 1 ==> #[trigger] target_hash(
                                behaviour.pending_queries()[l].1,
                            )[bi] == node_key_spec(local_node_id)[bi]),
                decreases NUM_BUCKETS - n,
            {
                match gen_random_hash(&my_hash, n) {
                    Ok(random_hash) => {
                        behaviour.start_query(
                            QueryTarget::FindPeer(random_hash),
                            QueryPurpose::Initialization,
                        );
                    },
                    Err(_) => {
                        // every bucket index below the digest width succeeds
                        proof {
                            assert(false);
                        }
                    },
                }
                n += 1;
            }
        }
        behaviour
    }

    /// This node's identity.
    pub fn my_id(&self) -> (r: PublicKey)
        ensures
            r == self.spec_my_id(),
    {
        self.my_id
    }

    /// Rotates this node's identity: the routing table starts over, and
    /// the keys this node provides are re-announced under the new
    /// identity.
    pub fn change_id(&mut self, new_id: PublicKey)
        requires
            old(self).wf(),
        ensures
            final(self).wf(),
            final(self).providers_consistent(),
            final(self).spec_my_id() == new_id,
            final(self).table().nodes_seq().len() == 0,
            final(self).providing() == old(self).providing(),
            forall|k2: Seq<u8>, m: PublicKey|
                prov_has(old(self).providers(), k2) && prov_of(old(self).providers(), k2).contains(
                    m,
                ) ==> prov_has(final(self).providers(), k2) && prov_of(
                    final(self).providers(),
                    k2,
                ).contains(m),
            final(self).peers_map() == old(self).peers_map(),
            final(self).queries() == old(self).queries(),
            final(self).pending_queries() == old(self).pending_queries(),
            final(self).queued() == old(self).queued(),
            final(self).remote() == old(self).remote(),
            final(self).connected() == old(self).connected(),
    {
        self.kbuckets = self.kbuckets.new_table(new_id);
        self.my_id = new_id;
        // the provider entries for our own keys must name the new identity
        let mut i: usize = 0;
        while i < self.providing_keys.len()
            invariant
                0 <= i <= self.providing_keys@.len(),
                old(self).wf(),
                self.kbuckets.wf(),
                self.kbuckets.spec_my_id() == new_id,
                self.kbuckets.nodes_seq().len() == 0,
                self.my_id == new_id,
                self.known_peers == old(self).known_peers,
                lru_no_expiry(self.known_peers),
                lru_contents(self.known_peers).dom().finite(),
                lru_capacity(self.known_peers) >= 1,
                self.providing_keys@ == old(self).providing_keys@,
                self.active_queries@ == old(self).active_queries@,
                self.queries_to_start@ == old(self).queries_to_start@,
                self.add_provider@ == old(self).add_provider@,
                self.remote_requests@ == old(self).remote_requests@,
                self.queued_events@ == old(self).queued_events@,
                self.connected_peers@ == old(self).connected_peers@,
                forall|k2: Seq<u8>, m: PublicKey|
                    prov_has(old(self).values_providers@, k2) && prov_of(
                        old(self).values_providers@,
                        k2,
                    ).contains(m) ==> prov_has(self.values_providers@, k2) && prov_of(
                        self.values_providers@,
                        k2,
                    ).contains(m),
                prov_unique(self.values_providers@),
                forall|l: int|
                    0 <= l < self.values_providers@.len() ==> (#[trigger] self.values_providers@[
                        l
                    ]).0@.len() == KAD_KEY_LEN,
                forall|l: int, x: int, y: int|
                    #![trigger self.values_providers@[l].1@[x], self.values_providers@[l].1@[y]]
                    0 <= l < self.values_providers@.len() && 0 <= x < y
                        < self.values_providers@[l].1@.len() ==> self.values_providers@[l].1@[x]
                        != self.values_providers@[l].1@[y],
                forall|l: int|
                    0 <= l < i ==> keys_has(self.providing_keys@.take(i as int), (
                    #[trigger] self.providing_keys@[l])@),
                forall|k: Seq<u8>|
                    keys_has(self.providing_keys@.take(i as int), k) ==> prov_has(
                        self.values_providers@,
                        k,
                    ) && prov_of(self.values_providers@, k).contains(new_id),
            decreases self.providing_keys@.len() - i,
        {
            let key = self.providing_keys[i].duplicate();
            self.ensure_provider(&key, &new_id);
            proof {
                assert(self.providing_keys@.take(i + 1).drop_last() =~= self.providing_keys@.take(
                    i as int,
                ));
                assert forall|l: int| 0 <= l < i + 1 implies keys_has(
                    self.providing_keys@.take(i + 1),
                    (#[trigger] self.providing_keys@[l])@,
                ) by {
                    assert(self.providing_keys@.take(i + 1)[l]@ == self.providing_keys@[l]@);
                }
            }
            i += 1;
        }
        proof {
            assert(self.providing_keys@.take(self.providing_keys@.len() as int)
                =~= self.providing_keys@);
        }
    }

    /// Makes sure the provider entry for `key` exists and lists `node`.
    fn ensure_provider(&mut self, key: &KadKey, node: &PublicKey)
        requires
            key@.len() == KAD_KEY_LEN,
            prov_unique(old(self).values_providers@),
            forall|l: int|
                0 <= l < old(self).values_providers@.len() ==> (#[trigger] old(self).values_providers@[l]).0@.len() == KAD_KEY_LEN,
            forall|l: int, x: int, y: int|
                #![trigger old(self).values_providers@[l].1@[x], old(self).values_providers@[l].1@[y]]
                0 <= l < old(self).values_providers@.len() && 0 <= x < y
                    < old(self).values_providers@[l].1@.len()
                    ==> old(self).values_providers@[l].1@[x]
                    != old(self).values_providers@[l].1@[y],
        ensures
            prov_unique(final(self).values_providers@),
            forall|l: int|
                0 <= l < final(self).values_providers@.len() ==> (#[trigger] final(self).values_providers@[l]).0@.len() == KAD_KEY_LEN,
            forall|l: int, x: int, y: int|
                #![trigger final(self).values_providers@[l].1@[x], final(self).values_providers@[l].1@[y]]
                0 <= l < final(self).values_providers@.len() && 0 <= x < y
                    < final(self).values_providers@[l].1@.len()
                    ==> final(self).values_providers@[l].1@[x]
                    != final(self).values_providers@[l].1@[y],
            prov_has(final(self).values_providers@, key@),
            prov_of(final(self).values_providers@, key@).contains(*node),
            forall|k: Seq<u8>|
                prov_has(old(self).values_providers@, k) ==> prov_has(
                    final(self).values_providers@,
                    k,
                ),
            forall|k: Seq<u8>, m: PublicKey|
                prov_has(old(self).values_providers@, k) && prov_of(
                    old(self).values_providers@,
                    k,
                ).contains(m) ==> prov_has(final(self).values_providers@, k) && prov_of(
                    final(self).values_providers@,
                    k,
                ).contains(m),
            final(self).my_id == old(self).my_id,
            final(self).kbuckets == old(self).kbuckets,
            final(self).known_peers == old(self).known_peers,
            final(self).providing_keys@ == old(self).providing_keys@,
            final(self).active_queries@ == old(self).active_queries@,
            final(self).queries_to_start@ == old(self).queries_to_start@,
            final(self).connected_peers@ == old(self).connected_peers@,
            final(self).pending_rpcs@ == old(self).pending_rpcs@,
            final(self).remote_requests@ == old(self).remote_requests@,
            final(self).queued_events@ == old(self).queued_events@,
            final(self).add_provider@ == old(self).add_provider@,
            final(self).next_query_id == old(self).next_query_id,
            final(self).next_refresh_ms == old(self).next_refresh_ms,
    {
        let ghost pre = self.values_providers@;
        let mut i: usize = 0;
        while i < self.values_providers.len()
            invariant
                0 <= i <= self.values_providers@.len(),
                self.values_providers@ == pre,
                pre == old(self).values_providers@,
                key@.len() == KAD_KEY_LEN,
                prov_unique(pre),
                forall|l: int| 0 <= l < pre.len() ==> (#[trigger] pre[l]).0@.len() == KAD_KEY_LEN,
                forall|l: int, x: int, y: int|
                    #![trigger pre[l].1@[x], pre[l].1@[y]]
                    0 <= l < pre.len() && 0 <= x < y < pre[l].1@.len() ==> pre[l].1@[x]
                        != pre[l].1@[y],
                self.my_id == old(self).my_id,
                self.kbuckets == old(self).kbuckets,
                self.known_peers == old(self).known_peers,
                self.providing_keys@ == old(self).providing_keys@,
                self.active_queries@ == old(self).active_queries@,
                self.queries_to_start@ == old(self).queries_to_start@,
                self.connected_peers@ == old(self).connected_peers@,
                self.pending_rpcs@ == old(self).pending_rpcs@,
                self.remote_requests@ == old(self).remote_requests@,
                self.queued_events@ == old(self).queued_events@,
                self.add_provider@ == old(self).add_provider@,
                self.next_query_id == old(self).next_query_id,
                self.next_refresh_ms == old(self).next_refresh_ms,
                forall|l: int| 0 <= l < i ==> (#[trigger] pre[l]).0@ != key@,
            decreases self.values_providers@.len() - i,
        {
            if self.values_providers[i].0.same_as(key) {
                // the entry exists: add the node if it is missing
                let mut found = false;
                let mut j: usize = 0;
                let n_prov = self.values_providers[i].1.len();
                while j < n_prov
                    invariant
                        0 <= j <= n_prov,
                        i < self.values_providers@.len(),
                        self.values_providers@ == pre,
                        n_prov == pre[i as int].1@.len(),
                        found ==> pre[i as int].1@.contains(*node),
                        !found ==> forall|l: int| 0 <= l < j ==> pre[i as int].1@[l] != *node,
                    decreases n_prov - j,
                {
                    if self.values_providers[i].1[j].id == node.id {
                        found = true;
                        proof {
                            assert(pre[i as int].1@[j as int] == *node);
                        }
                    }
                    j += 1;
                }
                if !found {
                    let ghost plist = self.values_providers@[i as int].1@;
                    let entry = &mut self.values_providers[i];
                    entry.1.push(*node);
                    proof {
                        assert(self.values_providers@[i as int].1@ =~= plist.push(*node));
                        assert(self.values_providers@[i as int].1@.last() == *node);
                        assert(self.values_providers@[i as int].1@.contains(*node));
                    }
                }
                proof {
                    let post = self.values_providers@;
                    assert(post.len() == pre.len());
                    assert(forall|l: int|
                        0 <= l < pre.len() && l != i ==> #[trigger] post[l] == pre[l]);
                    assert(post[i as int].0 == pre[i as int].0);
                    assert forall|x: int, y: int| 0 <= x < y < post.len() implies post[x].0@
                        != post[y].0@ by {
                        assert(post[x].0 == pre[x].0 && post[y].0 == pre[y].0);
                    }
                    assert forall|l: int, x: int, y: int|
                        #![trigger post[l].1@[x], post[l].1@[y]]
                        0 <= l < post.len() && 0 <= x < y < post[l].1@.len() implies post[l].1@[x]
                        != post[l].1@[y] by {
                        if l != i {
                            assert(post[l] == pre[l]);
                        } else if !found {
                            if y < pre[i as int].1@.len() {
                            } else {
                                assert(post[l].1@[y] == *node);
                                assert(pre[i as int].1@[x] != *node);
                            }
                        }
                    }
                    lemma_prov_lookup(post, key@, i as int);
                    assert(post[i as int].1@.contains(*node)) by {
                        if found {
                            let x = choose|x: int|
                                0 <= x < pre[i as int].1@.len() && pre[i as int].1@[x] == *node;
                            assert(post[i as int].1@[x] == *node);
                        }
                    }
                    assert forall|k: Seq<u8>| prov_has(pre, k) implies prov_has(post, k) by {
                        let l = prov_idx(pre, k);
                        lemma_prov_lookup(pre, k, l);
                        assert(post[l].0@ == k);
                    }
                    assert forall|k: Seq<u8>, m: PublicKey|
                        prov_has(pre, k) && prov_of(pre, k).contains(m) implies prov_has(
                        post,
                        k,
                    ) && prov_of(post, k).contains(m) by {
                        let l = prov_idx(pre, k);
                        lemma_prov_lookup(pre, k, l);
                        assert(post[l].0@ == k);
                        lemma_prov_lookup(post, k, l);
                        let x = choose|x: int|
                            0 <= x < prov_of(pre, k).len() && prov_of(pre, k)[x] == m;
                        assert(pre[l].1@[x] == m);
                        if l == i {
                            assert(post[l].1@[x] == m);
                        } else {
                            assert(post[l].1@[x] == m);
                        }
                        assert(prov_of(post, k)[x] == m);
                    }
                }
                return ;
            }
            i += 1;
        }
        // no entry yet: create one listing only the node
        let mut list: Vec<PublicKey> = Vec::new();
        list.push(*node);
        self.values_providers.push((key.duplicate(), list));
        proof {
            let post = self.values_providers@;
            assert(post.drop_last() =~= pre);
            assert(post[post.len() - 1].0@ == key@);
            assert forall|x: int, y: int| 0 <= x < y < post.len() implies post[x].0@ != post[
                y
            ].0@ by {
                if y == post.len() - 1 {
                    assert(post[x] == pre[x]);
                } else {
                    assert(post[x] == pre[x] && post[y] == pre[y]);
                }
            }
            assert forall|l: int, x: int, y: int|
                #![trigger post[l].1@[x], post[l].1@[y]]
                0 <= l < post.len() && 0 <= x < y < post[l].1@.len() implies post[l].1@[x]
                != post[l].1@[y] by {
                if l < post.len() - 1 {
                    assert(post[l] == pre[l]);
                } else {
                    assert(post[l].1@.len() == 1);
                }
            }
            lemma_prov_lookup(post, key@, post.len() - 1);
            assert(post[post.len() - 1].1@[0] == *node);
            assert(prov_of(post, key@).contains(*node));
            assert forall|k: Seq<u8>, m: PublicKey|
                prov_has(pre, k) && prov_of(pre, k).contains(m) implies prov_has(post, k)
                && prov_of(post, k).contains(m) by {
                let l = prov_idx(pre, k);
                lemma_prov_lookup(pre, k, l);
                assert(post[l].0@ == k);
                lemma_prov_lookup(post, k, l);
                let x = choose|x: int| 0 <= x < prov_of(pre, k).len() && prov_of(pre, k)[x] == m;
                assert(post[l].1@[x] == m);
            }
            assert forall|k: Seq<u8>| prov_has(pre, k) implies prov_has(post, k) by {
                let l = prov_idx(pre, k);
                lemma_prov_lookup(pre, k, l);
                assert(post[l].0@ == k);
            }
        }
    }

    /// All known nodes, closest to `id` first.
    pub fn find_closest(&self, id: &PublicKey) -> (r: Vec<PublicKey>)
        requires
            self.wf(),
        ensures
            r@.len() == self.table().nodes_seq().len(),
            forall|i: int| 0 <= i < r@.len() ==> self.table().contains_node(#[trigger] r@[i]),
            forall|m: PublicKey| self.table().contains_node(m) ==> r@.contains(m),
            forall|i: int, j: int|
                0 <= i < j < r@.len() ==> dist_lt(
                    node_key_spec(#[trigger] r@[i]),
                    node_key_spec(#[trigger] r@[j]),
                    node_key_spec(*id),
                ),
            forall|i: int, j: int| 0 <= i < j < r@.len() ==> r@[i] != r@[j],
    {
        let key = node_key(id);
        self.kbuckets.find_closest(&key)
    }

    /// All known nodes and this node itself, closest to `id` first.
    pub fn find_closest_with_self(&self, id: &PublicKey) -> (r: Vec<PublicKey>)
        requires
            self.wf(),
        ensures
            r@.len() == self.table().nodes_seq().len() + 1,
            r@.contains(self.spec_my_id()),
            forall|i: int|
                0 <= i < r@.len() ==> self.table().contains_node(#[trigger] r@[i]) || r@[i]
                    == self.spec_my_id(),
            forall|m: PublicKey| self.table().contains_node(m) ==> r@.contains(m),
            forall|i: int, j: int|
                0 <= i < j < r@.len() ==> dist_le(
                    node_key_spec(#[trigger] r@[i]),
                    node_key_spec(#[trigger] r@[j]),
                    node_key_spec(*id),
                ),
            forall|i: int, j: int| 0 <= i < j < r@.len() ==> r@[i] != r@[j],
    {
        let key = node_key(id);
        self.kbuckets.find_closest_with_self(&key)
    }

    /// A copy of what is known about a node.
    pub fn get_node(&self, node_id: &PublicKey) -> (r: Option<NodeInfo>)
        requires
            self.wf(),
        ensures
            match r {
                Some(info) => self.table().contains_node(*node_id) && peer_view(info) == peer_view(
                    self.table().spec_info(*node_id),
                ) && info.addresses@ == self.table().spec_info(*node_id).addresses@,
                None => !self.table().contains_node(*node_id),
            },
    {
        self.kbuckets.get(node_id)
    }

    /// Records the transport identity of a node, in the routing table and
    /// in the bounded peer map.
    pub fn set_peer_id(&mut self, node_id: &PublicKey, peer_id: PeerId)
        requires
            old(self).wf(),
        ensures
            final(self).wf(),
            final(self).spec_my_id() == old(self).spec_my_id(),
            final(self).peers_map().contains_pair(peer_id@, node_id.id),
            old(self).table().contains_node(*node_id) ==> peer_view(
                final(self).table().spec_info(*node_id),
            ) == Some(peer_id@),
            forall|m: PublicKey|
                final(self).table().contains_node(m) == old(self).table().contains_node(m),
    {
        self.kbuckets.set_node_peer(node_id, &peer_id);
        let bytes = crate::addresses::bytes_dup(&peer_id.bytes);
        lru_insert(&mut self.known_peers, bytes, node_id.id);
    }

    /// Records a connected address for a known node.
    pub fn add_connected_address(&mut self, node_id: &PublicKey, address: Multiaddr)
        requires
            old(self).wf(),
        ensures
            final(self).wf(),
            final(self).spec_my_id() == old(self).spec_my_id(),
            old(self).table().contains_node(*node_id) ==> has_addr(
                final(self).table().spec_info(*node_id).addresses@,
                address@,
            ) && any_connected(final(self).table().spec_info(*node_id).addresses@) && (forall|
                k: int,
            |
                0 <= k < final(self).table().spec_info(*node_id).addresses@.len() && (
                #[trigger] final(self).table().spec_info(*node_id).addresses@[k]).0 == address@
                    ==> final(self).table().spec_info(*node_id).addresses@[k].1),
            !old(self).table().contains_node(*node_id) ==> final(self).table().nodes_seq() == old(self).table().nodes_seq(),
            final(self).providers() == old(self).providers(),
            final(self).providing() == old(self).providing(),
            final(self).peers_map() == old(self).peers_map(),
            final(self).queries() == old(self).queries(),
            final(self).queued() == old(self).queued(),
    {
        self.kbuckets.add_connected_address(node_id, &address);
    }

    /// Records an address for a known node without claiming a connection.
    pub fn add_not_connected_address(&mut self, node_id: &PublicKey, address: Multiaddr)
        requires
            old(self).wf(),
        ensures
            final(self).wf(),
            final(self).spec_my_id() == old(self).spec_my_id(),
            old(self).table().contains_node(*node_id) ==> has_addr(
                final(self).table().spec_info(*node_id).addresses@,
                address@,
            ),
            old(self).table().contains_node(*node_id) && has_addr(
                old(self).table().spec_info(*node_id).addresses@,
                address@,
            ) ==> final(self).table().spec_info(*node_id).addresses@ == old(self).table().spec_info(*node_id).addresses@,
            old(self).table().contains_node(*node_id) && !has_addr(
                old(self).table().spec_info(*node_id).addresses@,
                address@,
            ) ==> final(self).table().spec_info(*node_id).addresses@ == old(self).table().spec_info(*node_id).addresses@.push((address@, false)),
            !old(self).table().contains_node(*node_id) ==> final(self).table().nodes_seq() == old(self).table().nodes_seq(),
            final(self).providers() == old(self).providers(),
            final(self).providing() == old(self).providing(),
            final(self).peers_map() == old(self).peers_map(),
            final(self).queries() == old(self).queries(),
            final(self).queued() == old(self).queued(),
    {
        self.kbuckets.add_not_connected_address(node_id, &address);
    }

    /// Starts an iterative node lookup for the given identity.
    pub fn find_node(&mut self, node_id: PublicKey)
        requires
            old(self).wf(),
        ensures
            final(self).wf(),
            final(self).spec_my_id() == old(self).spec_my_id(),
            final(self).pending_queries().len() == old(self).pending_queries().len() + 1,
            final(self).pending_queries().last().1 is FindPeer,
            target_hash(final(self).pending_queries().last().1) == node_key_spec(node_id),
            final(self).pending_queries().last().2 is UserRequest,
            final(self).pending_queries().drop_last() == old(self).pending_queries(),
            final(self).table() == old(self).table(),
            final(self).providers() == old(self).providers(),
            final(self).providing() == old(self).providing(),
            final(self).peers_map() == old(self).peers_map(),
            final(self).queries() == old(self).queries(),
            final(self).queued() == old(self).queued(),
            final(self).remote() == old(self).remote(),
            final(self).connected() == old(self).connected(),
            final(self).spec_next_refresh() == old(self).spec_next_refresh(),
    {
        let key = node_key(&node_id);
        self.start_query(QueryTarget::FindPeer(key), QueryPurpose::UserRequest);
    }

    /// The number of nodes in the routing table.
    pub fn ktable_size(&self) -> (r: usize)
        ensures
            r == self.table().nodes_seq().len(),
    {
        self.kbuckets.size()
    }

    /// Starts an iterative provider lookup for the given key.
    pub fn get_providers(&mut self, key: KadKey)
        requires
            old(self).wf(),
            key.wf(),
        ensures
            final(self).wf(),
            final(self).spec_my_id() == old(self).spec_my_id(),
            final(self).pending_queries().len() == old(self).pending_queries().len() + 1,
            final(self).pending_queries().last().1 is GetProviders,
            target_hash(final(self).pending_queries().last().1) == key@,
            final(self).pending_queries().last().2 is UserRequest,
            final(self).pending_queries().drop_last() == old(self).pending_queries(),
            final(self).table() == old(self).table(),
            final(self).providers() == old(self).providers(),
            final(self).providing() == old(self).providing(),
            final(self).peers_map() == old(self).peers_map(),
            final(self).queries() == old(self).queries(),
            final(self).queued() == old(self).queued(),
            final(self).remote() == old(self).remote(),
            final(self).connected() == old(self).connected(),
            final(self).spec_next_refresh() == old(self).spec_next_refresh(),
    {
        self.start_query(QueryTarget::GetProviders(key), QueryPurpose::UserRequest);
    }

    /// Registers this node as a provider of the key derived from `key`:
    /// the key joins the providing set, this node joins its provider
    /// list, and the next re-announcement is brought forward to the next
    /// poll.
    pub fn add_providing(&mut self, key: PublicKey)
        requires
            old(self).wf(),
        ensures
            final(self).wf(),
            final(self).spec_my_id() == old(self).spec_my_id(),
            keys_has(final(self).providing(), node_key_spec(key)),
            prov_has(final(self).providers(), node_key_spec(key)),
            prov_of(final(self).providers(), node_key_spec(key)).contains(
                final(self).spec_my_id(),
            ),
            final(self).providers_consistent(),
            final(self).spec_next_refresh() == 0,
            forall|k2: Seq<u8>|
                keys_has(old(self).providing(), k2) ==> keys_has(final(self).providing(), k2),
            forall|k2: Seq<u8>, m: PublicKey|
                prov_has(old(self).providers(), k2) && prov_of(old(self).providers(), k2).contains(
                    m,
                ) ==> prov_has(final(self).providers(), k2) && prov_of(
                    final(self).providers(),
                    k2,
                ).contains(m),
            final(self).table() == old(self).table(),
            final(self).peers_map() == old(self).peers_map(),
            final(self).queries() == old(self).queries(),
            final(self).queued() == old(self).queued(),
            final(self).pending_queries() == old(self).pending_queries(),
    {
        let k = node_key(&key);
        let ghost pre_keys = self.providing_keys@;
        // record the key as provided, once
        let mut present = false;
        let mut i: usize = 0;
        while i < self.providing_keys.len()
            invariant
                0 <= i <= self.providing_keys@.len(),
                self.providing_keys@ == pre_keys,
                k@ == node_key_spec(key),
                present ==> keys_has(pre_keys, k@),
            decreases self.providing_keys@.len() - i,
        {
            if self.providing_keys[i].same_as(&k) {
                present = true;
                proof {
                    assert(pre_keys[i as int]@ == k@);
                }
            }
            i += 1;
        }
        if !present {
            self.providing_keys.push(k.duplicate());
            proof {
                assert(self.providing_keys@.drop_last() =~= pre_keys);
                assert(self.providing_keys@.last()@ == k@);
            }
        }
        let me = self.my_id;
        self.ensure_provider(&k, &me);
        // bring the next re-announcement forward
        self.next_refresh_ms = 0;
        proof {
            assert forall|k2: Seq<u8>|
                keys_has(self.providing_keys@, k2) implies prov_has(self.values_providers@, k2)
                && prov_of(self.values_providers@, k2).contains(self.my_id) by {
                let l = choose|l: int|
                    0 <= l < self.providing_keys@.len() && (self.providing_keys@[l])@ == k2;
                if present || l < pre_keys.len() {
                    assert(pre_keys[l]@ == k2);
                    assert(keys_has(pre_keys, k2));
                } else {
                    assert(k2 == k@);
                }
            }
            assert(keys_has(self.providing_keys@, k@)) by {
                if present {
                    let l = choose|l: int| 0 <= l < pre_keys.len() && (pre_keys[l])@ == k@;
                    assert((self.providing_keys@[l])@ == k@);
                } else {
                    assert((self.providing_keys@[self.providing_keys@.len() - 1])@ == k@);
                }
            }
        }
    }

    /// Cancels a registration done with `add_providing`: the key leaves
    /// the providing set and this node leaves its provider list.  There is
    /// no withdrawal message; peers let the registration lapse.
    pub fn remove_providing(&mut self, key: &KadKey)
        requires
            old(self).wf(),
        ensures
            final(self).wf(),
            final(self).spec_my_id() == old(self).spec_my_id(),
            !keys_has(final(self).providing(), key@),
            prov_has(final(self).providers(), key@) ==> !prov_of(
                final(self).providers(),
                key@,
            ).contains(final(self).spec_my_id()),
            final(self).providers_consistent(),
            forall|k2: Seq<u8>|
                k2 != key@ ==> keys_has(final(self).providing(), k2) == keys_has(
                    old(self).providing(),
                    k2,
                ),
            forall|k2: Seq<u8>|
                prov_has(final(self).providers(), k2) == prov_has(old(self).providers(), k2),
            forall|k2: Seq<u8>|
                k2 != key@ && prov_has(old(self).providers(), k2) ==> prov_of(
                    final(self).providers(),
                    k2,
                ) == prov_of(old(self).providers(), k2),
            prov_has(old(self).providers(), key@) ==> forall|m: PublicKey|
                m != old(self).spec_my_id() ==> (prov_of(final(self).providers(), key@).contains(m)
                    == prov_of(old(self).providers(), key@).contains(m)),
            final(self).table() == old(self).table(),
            final(self).peers_map() == old(self).peers_map(),
            final(self).queries() == old(self).queries(),
            final(self).queued() == old(self).queued(),
            final(self).pending_queries() == old(self).pending_queries(),
    {
        let ghost pre_keys = self.providing_keys@;
        // drop the key from the providing set
        let mut out: Vec<KadKey> = Vec::new();
        let mut i: usize = 0;
        while i < self.providing_keys.len()
            invariant
                0 <= i <= self.providing_keys@.len(),
                self.providing_keys@ == pre_keys,
                pre_keys == old(self).providing_keys@,
                forall|l: int|
                    0 <= l < pre_keys.len() ==> (#[trigger] pre_keys[l])@.len() == KAD_KEY_LEN,
                forall|l: int|
                    0 <= l < out@.len() ==> (#[trigger] out@[l])@ != key@ && keys_has(
                        pre_keys,
                        out@[l]@,
                    ) && out@[l]@.len() == KAD_KEY_LEN,
                forall|l: int|
                    0 <= l < i && (#[trigger] pre_keys[l])@ != key@ ==> keys_has(out@, pre_keys[l]@),
            decreases self.providing_keys@.len() - i,
        {
            if !self.providing_keys[i].same_as(key) {
                let ghost pre_out = out@;
                let kk = self.providing_keys[i].duplicate();
                out.push(kk);
                proof {
                    assert(out@.last()@ == pre_keys[i as int]@);
                    assert forall|l: int|
                        0 <= l < i + 1 && (#[trigger] pre_keys[l])@ != key@ implies keys_has(
                        out@,
                        pre_keys[l]@,
                    ) by {
                        if l < i {
                            let x = choose|x: int|
                                0 <= x < pre_out.len() && (pre_out[x])@ == pre_keys[l]@;
                            assert((out@[x])@ == pre_keys[l]@);
                        } else {
                            assert((out@[out@.len() - 1])@ == pre_keys[l]@);
                        }
                    }
                }
            }
            i += 1;
        }
        let ghost outg = out@;
        self.providing_keys = out;
        // drop this node from the key's provider list
        let ghost pre_prov = self.values_providers@;
        let mut pi: usize = 0;
        let me = self.my_id;
        while pi < self.values_providers.len()
            invariant
                0 <= pi <= self.values_providers@.len(),
                self.values_providers@.len() == pre_prov.len(),
                me == self.my_id,
                self.my_id == old(self).my_id,
                self.kbuckets == old(self).kbuckets,
                self.known_peers == old(self).known_peers,
                self.providing_keys@ == outg,
                self.active_queries@ == old(self).active_queries@,
                self.queries_to_start@ == old(self).queries_to_start@,
                self.add_provider@ == old(self).add_provider@,
                self.remote_requests@ == old(self).remote_requests@,
                pre_keys == old(self).providing_keys@,
                pre_prov == old(self).values_providers@,
                forall|l: int|
                    0 <= l < outg.len() ==> (#[trigger] outg[l])@ != key@ && keys_has(
                        pre_keys,
                        outg[l]@,
                    ) && outg[l]@.len() == KAD_KEY_LEN,
                prov_unique(pre_prov),
                forall|l: int|
                    0 <= l < pre_prov.len() ==> (#[trigger] pre_prov[l]).0@.len() == KAD_KEY_LEN,
                forall|l: int, x: int, y: int|
                    #![trigger pre_prov[l].1@[x], pre_prov[l].1@[y]]
                    0 <= l < pre_prov.len() && 0 <= x < y < pre_prov[l].1@.len() ==> pre_prov[
                        l
                    ].1@[x] != pre_prov[l].1@[y],
                forall|l: int|
                    0 <= l < pre_prov.len() ==> (#[trigger] self.values_providers@[l]).0@
                        == pre_prov[l].0@,
                forall|l: int|
                    0 <= l < pre_prov.len() && pre_prov[l].0@ != key@
                        ==> #[trigger] self.values_providers@[l] == pre_prov[l],
                self.queued_events@ == old(self).queued_events@,
                forall|l: int|
                    pi <= l < pre_prov.len() ==> #[trigger] self.values_providers@[l]
                        == pre_prov[l],
                forall|l: int|
                    0 <= l < pi && (#[trigger] pre_prov[l]).0@ == key@
                        ==> !self.values_providers@[l].1@.contains(me),
                forall|l: int, m: PublicKey|
                    #![trigger self.values_providers@[l].1@.contains(m), pre_prov[l].1@.contains(m)]
                    0 <= l < pi && pre_prov[l].0@ == key@ && m != me
                        ==> self.values_providers@[l].1@.contains(m) == pre_prov[l].1@.contains(
                        m,
                    ),
                forall|l: int, x: int|
                    #![trigger self.values_providers@[l].1@[x]]
                    0 <= l < pre_prov.len() && 0 <= x < self.values_providers@[l].1@.len()
                        ==> pre_prov[l].1@.contains(self.values_providers@[l].1@[x]),
                forall|l: int, x: int, y: int|
                    #![trigger self.values_providers@[l].1@[x], self.values_providers@[l].1@[y]]
                    0 <= l < pre_prov.len() && 0 <= x < y < self.values_providers@[l].1@.len()
                        ==> self.values_providers@[l].1@[x] != self.values_providers@[l].1@[y],
            decreases self.values_providers@.len() - pi,
        {
            if self.values_providers[pi].0.same_as(key) {
                let ghost plist = self.values_providers@[pi as int].1@;
                let mut keep: Vec<PublicKey> = Vec::new();
                let n_prov = self.values_providers[pi].1.len();
                let mut j: usize = 0;
                while j < n_prov
                    invariant
                        0 <= j <= n_prov,
                        pi < self.values_providers@.len(),
                        n_prov == self.values_providers@[pi as int].1@.len(),
                        self.values_providers@[pi as int].1@ == plist,
                        me == self.my_id,
                        forall|x: int|
                            0 <= x < keep@.len() ==> #[trigger] keep@[x] != me && exists|y: int|
                                0 <= y < j && plist[y] == keep@[x],
                        forall|x: int, y: int| 0 <= x < y < keep@.len() ==> keep@[x] != keep@[y],
                        forall|x: int, y: int|
                            0 <= x < y < plist.len() ==> plist[x] != plist[y],
                        forall|y: int|
                            0 <= y < j && #[trigger] plist[y] != me ==> keep@.contains(plist[y]),
                    decreases n_prov - j,
                {
                    if self.values_providers[pi].1[j].id != me.id {
                        let ghost pre_keep = keep@;
                        let p = self.values_providers[pi].1[j];
                        keep.push(p);
                        proof {
                            assert(keep@.last() == plist[j as int]);
                            assert(plist.contains(plist[j as int]));
                            assert forall|x: int, y: int|
                                0 <= x < y < keep@.len() implies keep@[x] != keep@[y] by {
                                if y == keep@.len() - 1 {
                                    let xi = choose|xi: int|
                                        0 <= xi < j && plist[xi] == pre_keep[x];
                                    assert(plist[xi] != plist[j as int]);
                                }
                            }
                            assert forall|y: int|
                                0 <= y < j + 1 && #[trigger] plist[y] != me implies keep@.contains(
                                plist[y],
                            ) by {
                                if y < j {
                                    let x = choose|x: int|
                                        0 <= x < pre_keep.len() && pre_keep[x] == plist[y];
                                    assert(keep@[x] == plist[y]);
                                } else {
                                    assert(keep@[keep@.len() - 1] == plist[y]);
                                }
                            }
                        }
                    } else {
                        proof {
                            assert(plist[j as int] == me);
                        }
                    }
                    j += 1;
                }
                let ghost keepg = keep@;
                let kk = self.values_providers[pi].0.duplicate();
                self.values_providers[pi] = (kk, keep);
                proof {
                    assert forall|x: int|
                        0 <= x < self.values_providers@[pi as int].1@.len() implies plist.contains(
                        #[trigger] self.values_providers@[pi as int].1@[x],
                    ) && self.values_providers@[pi as int].1@[x] != me by {}
                    assert forall|m: PublicKey|
                        m != me implies (self.values_providers@[pi as int].1@.contains(m)
                        == plist.contains(m)) by {
                        if plist.contains(m) {
                            let y = choose|y: int| 0 <= y < plist.len() && plist[y] == m;
                            assert(keepg.contains(plist[y]));
                            assert(self.values_providers@[pi as int].1@ == keepg);
                        }
                        if self.values_providers@[pi as int].1@.contains(m) {
                            let x = choose|x: int|
                                0 <= x < self.values_providers@[pi as int].1@.len()
                                    && self.values_providers@[pi as int].1@[x] == m;
                            assert(plist.contains(m));
                        }
                    }
                    assert(!self.values_providers@[pi as int].1@.contains(me)) by {
                        if self.values_providers@[pi as int].1@.contains(me) {
                            let x = choose|x: int|
                                0 <= x < self.values_providers@[pi as int].1@.len()
                                    && self.values_providers@[pi as int].1@[x] == me;
                        }
                    }
                }
            }
            pi += 1;
        }
        proof {
            let post = self.values_providers@;
            assert forall|x: int, y: int| 0 <= x < y < post.len() implies post[x].0@ != post[
                y
            ].0@ by {
                assert(post[x].0@ == pre_prov[x].0@ && post[y].0@ == pre_prov[y].0@);
            }
            assert forall|k2: Seq<u8>|
                prov_has(post, k2) == prov_has(pre_prov, k2) by {
                if prov_has(pre_prov, k2) {
                    let l = choose|l: int| 0 <= l < pre_prov.len() && (pre_prov[l]).0@ == k2;
                    assert(post[l].0@ == k2);
                }
                if prov_has(post, k2) {
                    let l = choose|l: int| 0 <= l < post.len() && (post[l]).0@ == k2;
                    assert(pre_prov[l].0@ == k2);
                }
            }
            assert forall|k2: Seq<u8>|
                k2 != key@ && prov_has(pre_prov, k2) implies prov_of(post, k2) == prov_of(
                pre_prov,
                k2,
            ) by {
                let l = choose|l: int| 0 <= l < pre_prov.len() && (pre_prov[l]).0@ == k2;
                lemma_prov_lookup(pre_prov, k2, l);
                assert(post[l] == pre_prov[l]);
                lemma_prov_lookup(post, k2, l);
            }
            assert(!keys_has(self.providing_keys@, key@)) by {
                if keys_has(self.providing_keys@, key@) {
                    let l = choose|l: int|
                        0 <= l < self.providing_keys@.len() && (self.providing_keys@[l])@ == key@;
                    assert((outg[l])@ == key@);
                }
            }
            assert forall|k2: Seq<u8>|
                keys_has(self.providing_keys@, k2) implies prov_has(post, k2) && prov_of(
                post,
                k2,
            ).contains(self.my_id) by {
                let l = choose|l: int|
                    0 <= l < self.providing_keys@.len() && (self.providing_keys@[l])@ == k2;
                assert((outg[l])@ == k2);
                assert(keys_has(pre_keys, k2));
                assert(k2 != key@);
                let pl = prov_idx(pre_prov, k2);
                lemma_prov_lookup(pre_prov, k2, pl);
                assert(post[pl].0@ == k2);
                lemma_prov_lookup(post, k2, pl);
                assert(post[pl] == pre_prov[pl]);
            }
            if prov_has(post, key@) {
                let pl = prov_idx(post, key@);
                assert(0 <= pl < post.len() && post[pl].0@ == key@);
                assert(pre_prov[pl].0@ == key@);
                assert(!post[pl].1@.contains(self.my_id));
            }
        }
    }

    /// The node identity last seen for a transport peer, if any.
    fn node_of_peer(&mut self, peer: &PeerId) -> (r: Option<PublicKey>)
        requires
            old(self).wf(),
        ensures
            final(self).wf(),
            final(self).spec_my_id() == old(self).spec_my_id(),
            final(self).table() == old(self).table(),
            final(self).providers() == old(self).providers(),
            final(self).providing() == old(self).providing(),
            final(self).peers_map() == old(self).peers_map(),
            final(self).connected() == old(self).connected(),
            final(self).pending_queries() == old(self).pending_queries(),
            final(self).queries() == old(self).queries(),
            final(self).queued() == old(self).queued(),
            final(self).remote() == old(self).remote(),
            final(self).reported_providers() == old(self).reported_providers(),
            final(self).parked_rpcs() == old(self).parked_rpcs(),
            final(self).spec_next_refresh() == old(self).spec_next_refresh(),
            match r {
                Some(n) => old(self).peers_map().dom().contains(peer@) && n.id == old(self).peers_map()[peer@],
                None => !old(self).peers_map().dom().contains(peer@),
            },
    {
        let bytes = crate::addresses::bytes_dup(&peer.bytes);
        match lru_get(&mut self.known_peers, &bytes) {
            Some(id) => Some(PublicKey { id }),
            None => None,
        }
    }

    /// The request a lookup sends to a candidate.
    fn to_rpc_request(target: &QueryTarget, query_id: u64) -> (r: KademliaHandlerIn)
        ensures
            is_rpc_request_for(r, *target, query_id),
    {
        match target {
            QueryTarget::FindPeer(key) => KademliaHandlerIn::FindNodeReq {
                key: key.duplicate(),
                user_data: QueryId(query_id),
            },
            QueryTarget::GetProviders(key) => KademliaHandlerIn::GetProvidersReq {
                key: key.duplicate(),
                user_data: QueryId(query_id),
            },
        }
    }

    /// Whether the transport is connected to the peer.
    fn is_connected_peer(&self, peer: &PeerId) -> (r: bool)
        ensures
            r == exists|i: int|
                0 <= i < self.connected().len() && (#[trigger] self.connected()[i])@ == peer@,
            !r ==> forall|i: int|
                0 <= i < self.connected().len() ==> (#[trigger] self.connected()[i])@ != peer@,
    {
        let mut i: usize = 0;
        while i < self.connected_peers.len()
            invariant
                0 <= i <= self.connected_peers@.len(),
                forall|l: int| 0 <= l < i ==> (#[trigger] self.connected_peers@[l])@ != peer@,
            decreases self.connected_peers@.len() - i,
        {
            if self.connected_peers[i].same_as(peer) {
                proof {
                    assert((self.connected()[i as int])@ == peer@);
                }
                return true;
            }
            i += 1;
        }
        false
    }

    /// A transport connection to `id` opened.  Any request parked for the
    /// peer's node is queued for sending; the node is recorded as seen and
    /// connected (which may ask the driver to probe a bucket's oldest
    /// member); a dialed address is recorded as connected.
    #[verifier::rlimit(100)]
    pub fn inject_connected(&mut self, id: PeerId, endpoint: ConnectedPoint, now: u64)
        requires
            old(self).wf(),
        ensures
            final(self).wf(),
            final(self).providers_consistent(),
            final(self).spec_my_id() == old(self).spec_my_id(),
            exists|i: int|
                0 <= i < final(self).connected().len() && (#[trigger] final(self).connected()[
                    i
                ])@ == id@,
            final(self).peers_map() == old(self).peers_map(),
            final(self).remote() == old(self).remote(),
            final(self).pending_queries() == old(self).pending_queries(),
            final(self).queries() == old(self).queries(),
            forall|ql: int|
                0 <= ql < old(self).queued().len() ==> #[trigger] final(self).queued()[ql] == old(self).queued()[ql],
            !old(self).peers_map().dom().contains(id@) ==> final(self).table() == old(self).table() && final(self).queued() == old(self).queued() && final(self).parked_rpcs()
                == old(self).parked_rpcs(),
            old(self).peers_map().dom().contains(id@) ==> {
                let n = PublicKey { id: old(self).peers_map()[id@] };
                &&& ((exists|l: int|
                    0 <= l < old(self).parked_rpcs().len() && (#[trigger] old(self).parked_rpcs()[
                        l
                    ]).0 == n) ==> exists|l: int|
                    0 <= l < old(self).parked_rpcs().len() && (#[trigger] old(self).parked_rpcs()[
                        l
                    ]).0 == n && (forall|l2: int|
                        0 <= l2 < l ==> (#[trigger] old(self).parked_rpcs()[l2]).0 != n) && final(self).parked_rpcs() == old(self).parked_rpcs().remove(l) && final(self).queued().len() > old(self).queued().len() && action_sends(
                        final(self).queued()[old(self).queued().len() as int],
                        id@,
                        old(self).parked_rpcs()[l].1,
                    ))
                &&& ((forall|l: int|
                    0 <= l < old(self).parked_rpcs().len() ==> (#[trigger] old(self).parked_rpcs()[
                        l
                    ]).0 != n) ==> final(self).parked_rpcs() == old(self).parked_rpcs())
                &&& (old(self).table().contains_node(n) ==> final(self).table().contains_node(n)
                    && final(self).table().spec_connected(n))
                &&& (n != old(self).spec_my_id() && !old(self).table().contains_node(n)
                    && count_bucket(
                    old(self).table().nodes_seq(),
                    old(self).spec_my_id(),
                    bucket_of(node_key_spec(n), node_key_spec(old(self).spec_my_id())),
                ) < BUCKET_SIZE ==> final(self).table().contains_node(n) && final(self).table().spec_connected(n))
                &&& (forall|m: PublicKey|
                    m != n && final(self).table().contains_node(m) ==> old(self).table().contains_node(m))
                &&& (forall|m: PublicKey| #![auto]
                    m != n && old(self).table().contains_node(m) && !final(self).table().contains_node(m) ==> !old(self).table().spec_connected(m))
                &&& (match endpoint {
                    ConnectedPoint::Dialer { address } => final(self).table().contains_node(n)
                        ==> has_addr(
                        final(self).table().spec_info(n).addresses@,
                        address@,
                    ),
                    ConnectedPoint::Listener => true,
                })
            },
            old(self).peers_map().dom().contains(id@) && probe_dial_due(
                *old(self),
                PublicKey { id: old(self).peers_map()[id@] },
            ) ==> probe_dial_queued(
                *old(self),
                *final(self),
                PublicKey { id: old(self).peers_map()[id@] },
            ),
    {
        if !self.is_connected_peer(&id) {
            let ghost pre = self.connected_peers@;
            self.connected_peers.push(id.duplicate());
            proof {
                assert((self.connected()[self.connected().len() - 1])@ == id@);
            }
        }
        proof {
            assert(exists|i: int|
                0 <= i < self.connected().len() && (#[trigger] self.connected()[i])@ == id@);
        }
        let node = match self.node_of_peer(&id) {
            Some(n) => n,
            None => {
                return ;
            },
        };
        let ghost conn_snap = self.connected();
        // flush the first request parked for this node
        let ghost parked0 = self.pending_rpcs@;
        let ghost queued0 = self.queued_events@;
        let mut pos: usize = 0;
        let mut found = false;
        while pos < self.pending_rpcs.len() && !found
            invariant
                0 <= pos <= self.pending_rpcs@.len(),
                self.pending_rpcs@ == parked0,
                found ==> pos < self.pending_rpcs@.len() && self.pending_rpcs@[pos as int].0
                    == node,
                forall|l: int| 0 <= l < pos ==> (#[trigger] parked0[l]).0 != node,
            decreases self.pending_rpcs@.len() - pos + (if found {
                0int
            } else {
                1int
            }),
        {
            if self.pending_rpcs[pos].0.id == node.id {
                found = true;
                proof {
                    assert(self.pending_rpcs@[pos as int].0 == node);
                }
            } else {
                pos += 1;
            }
        }
        if found && pos < self.pending_rpcs.len() {
            let (_, rpc) = self.pending_rpcs.remove(pos);
            self.queued_events.push(
                NetworkAction::SendEvent { peer_id: id.duplicate(), event: rpc },
            );
            proof {
                assert(self.pending_rpcs@ == parked0.remove(pos as int));
                assert(action_sends(
                    self.queued_events@[queued0.len() as int],
                    id@,
                    parked0[pos as int].1,
                ));
            }
        } else {
            proof {
                if exists|l: int| 0 <= l < parked0.len() && (#[trigger] parked0[l]).0 == node {
                    let l = choose|l: int|
                        0 <= l < parked0.len() && (#[trigger] parked0[l]).0 == node;
                    assert(false);
                }
            }
        }
        let ghost tab0 = self.kbuckets;
        let ghost mut dial_ql: int = 0;
        match self.kbuckets.set_connected(&node, now) {
            Update::Pending(to_ping) => {
                proof {
                    assert(self.kbuckets.nodes_seq() == tab0.nodes_seq());
                    assert(tab0 == old(self).table());
                    assert(tab0.spec_my_id() == old(self).spec_my_id());
                    assert(to_ping == bucket_oldest(
                        old(self).table().nodes_seq(),
                        old(self).spec_my_id(),
                        bucket_of(node_key_spec(node), node_key_spec(old(self).spec_my_id())),
                    ));
                }
                match self.kbuckets.get(&to_ping) {
                    Some(info) => {
                        match info.peer_id() {
                            Some(peer) => {
                                proof {
                                    assert(Some(peer@) == peer_view(tab0.spec_info(to_ping)));
                                }
                                self.queued_events.push(NetworkAction::DialPeer { peer_id: peer });
                                proof {
                                    let ng = PublicKey { id: old(self).peers_map()[id@] };
                                    assert(node == ng);
                                    dial_ql = self.queued_events@.len() - 1;
                                    assert(match self.queued_events@[dial_ql] {
                                        NetworkAction::DialPeer { peer_id } => Some(peer_id@)
                                            == peer_view(tab0.spec_info(to_ping)),
                                        _ => false,
                                    });
                                    assert(queued0.len() <= dial_ql < self.queued_events@.len());
                                }
                            },
                            None => {
                                proof {
                                    let ng = PublicKey { id: old(self).peers_map()[id@] };
                                    let b = bucket_of(
                                        node_key_spec(ng),
                                        node_key_spec(old(self).spec_my_id()),
                                    );
                                    let oldest = bucket_oldest(
                                        old(self).table().nodes_seq(),
                                        old(self).spec_my_id(),
                                        b,
                                    );
                                    if ng != old(self).spec_my_id() && !old(
                                        self,
                                    ).table().contains_node(ng) && count_bucket(
                                        old(self).table().nodes_seq(),
                                        old(self).spec_my_id(),
                                        b,
                                    ) == BUCKET_SIZE && old(self).table().spec_connected(oldest)
                                        && peer_view(
                                        old(self).table().spec_info(oldest),
                                    ) is Some {
                                        assert(node == ng);
                                        assert(peer_view(info) == peer_view(
                                            tab0.spec_info(to_ping),
                                        ));
                                        assert(false);
                                    }
                                }
                            },
                        }
                    },
                    None => {
                        proof {
                            assert(tab0.contains_node(to_ping));
                            assert(self.kbuckets.contains_node(to_ping));
                            assert(false);
                        }
                    },
                }
            },
            Update::Added => {
                proof {
                    let ng = PublicKey { id: old(self).peers_map()[id@] };
                    let b = bucket_of(node_key_spec(ng), node_key_spec(old(self).spec_my_id()));
                    let oldest = bucket_oldest(
                        old(self).table().nodes_seq(),
                        old(self).spec_my_id(),
                        b,
                    );
                    if ng != old(self).spec_my_id() && !old(self).table().contains_node(ng)
                        && count_bucket(
                        old(self).table().nodes_seq(),
                        old(self).spec_my_id(),
                        b,
                    ) == BUCKET_SIZE && old(self).table().spec_connected(oldest) && peer_view(
                        old(self).table().spec_info(oldest),
                    ) is Some {
                        assert(node == ng);
                        assert(tab0 == old(self).table());
                        assert(false);
                    }
                }
            },
        }
        let ghost q_after_update = self.queued_events@;
        match endpoint {
            ConnectedPoint::Dialer { address } => {
                self.kbuckets.add_connected_address(&node, &address);
            },
            ConnectedPoint::Listener => {},
        }
        proof {
            assert(self.connected() == conn_snap);
            assert(node == PublicKey { id: old(self).peers_map()[id@] });
            let ng = PublicKey { id: old(self).peers_map()[id@] };
            if probe_dial_due(*old(self), ng) {
                assert(self.queued_events@ == q_after_update);
                assert(old(self).queued().len() <= dial_ql < self.queued().len());
                assert(match (self.queued()[dial_ql]) {
                    NetworkAction::DialPeer { peer_id } => Some(peer_id@) == peer_view(
                        old(self).table().spec_info(
                            bucket_oldest(
                                old(self).table().nodes_seq(),
                                old(self).spec_my_id(),
                                bucket_of(
                                    node_key_spec(ng),
                                    node_key_spec(old(self).spec_my_id()),
                                ),
                            ),
                        ),
                    ),
                    _ => false,
                });
                assert(probe_dial_queued(*old(self), *self, ng));
            }
            old(self).table().lemma_wf_no_self();
            if found {
                assert(old(self).parked_rpcs()[pos as int].0 == node);
                assert forall|l2: int|
                    0 <= l2 < pos implies (#[trigger] old(self).parked_rpcs()[l2]).0 != node by {
                    assert(parked0[l2].0 != node);
                }
                assert(self.parked_rpcs() == old(self).parked_rpcs().remove(pos as int));
                assert(action_sends(
                    self.queued()[old(self).queued().len() as int],
                    id@,
                    old(self).parked_rpcs()[pos as int].1,
                ));
            } else {
                assert(self.parked_rpcs() == old(self).parked_rpcs());
            }
        }
    }

    /// An address of a peer could not be reached: it is dropped from the
    /// peer's node record.
    pub fn inject_addr_reach_failure(&mut self, peer_id: Option<&PeerId>, addr: &Multiaddr)
        requires
            old(self).wf(),
        ensures
            final(self).wf(),
            final(self).providers_consistent(),
            final(self).spec_my_id() == old(self).spec_my_id(),
            final(self).peers_map() == old(self).peers_map(),
            final(self).queries() == old(self).queries(),
            final(self).queued() == old(self).queued(),
            final(self).connected() == old(self).connected(),
            match peer_id {
                Some(p) => old(self).peers_map().dom().contains(p@) && old(self).table().contains_node(PublicKey { id: old(self).peers_map()[p@] }) ==> !has_addr(
                    final(self).table().spec_info(
                        PublicKey { id: old(self).peers_map()[p@] },
                    ).addresses@,
                    addr@,
                ),
                None => final(self).table() == old(self).table(),
            },
    {
        match peer_id {
            Some(peer) => {
                match self.node_of_peer(peer) {
                    Some(node) => {
                        self.kbuckets.remove_node_address(&node, addr);
                    },
                    None => {},
                }
            },
            None => {},
        }
    }

    /// Dialing a peer failed: every lookup waiting on its node records a
    /// failure.
    pub fn inject_dial_failure(&mut self, peer_id: &PeerId)
        requires
            old(self).wf(),
        ensures
            final(self).wf(),
            final(self).providers_consistent(),
            final(self).spec_my_id() == old(self).spec_my_id(),
            final(self).table() == old(self).table(),
            final(self).peers_map() == old(self).peers_map(),
            final(self).queued() == old(self).queued(),
            final(self).remote() == old(self).remote(),
            final(self).pending_queries() == old(self).pending_queries(),
            final(self).connected() == old(self).connected(),
            !old(self).peers_map().dom().contains(peer_id@) ==> final(self).queries() == old(self).queries(),
            old(self).peers_map().dom().contains(peer_id@) ==> final(self).queries().len() == old(self).queries().len() && (forall|l: int|
                0 <= l < old(self).queries().len() ==> (#[trigger] final(self).queries()[l]).0
                    == old(self).queries()[l].0 && failed_only(
                    old(self).queries()[l].1.entries(),
                    final(self).queries()[l].1.entries(),
                    PublicKey { id: old(self).peers_map()[peer_id@] },
                )),
    {
        let node = match self.node_of_peer(peer_id) {
            Some(n) => n,
            None => {
                return ;
            },
        };
        self.fail_node_in_queries(&node);
    }

    /// Records a failure for `node` in one lookup entry.
    fn fail_node_at(
        queries: &mut Vec<(u64, QueryState, QueryPurpose, Vec<PublicKey>)>,
        i: usize,
        node: &PublicKey,
    )
        requires
            i < old(queries)@.len(),
            old(queries)@[i as int].1.wf(),
        ensures
            final(queries)@.len() == old(queries)@.len(),
            forall|l: int|
                0 <= l < old(queries)@.len() && l != i ==> #[trigger] final(queries)@[l] == old(
                    queries,
                )@[l],
            final(queries)@[i as int].0 == old(queries)@[i as int].0,
            final(queries)@[i as int].2 == old(queries)@[i as int].2,
            final(queries)@[i as int].3 == old(queries)@[i as int].3,
            final(queries)@[i as int].1.wf(),
            final(queries)@[i as int].1.spec_target() == old(queries)@[i as int].1.spec_target(),
            final(queries)@[i as int].1.spec_parallelism() == old(queries)@[
                i as int
            ].1.spec_parallelism(),
            final(queries)@[i as int].1.spec_num_results() == old(queries)@[
                i as int
            ].1.spec_num_results(),
            query_measure(final(queries)@[i as int].1.entries()) <= query_measure(
                old(queries)@[i as int].1.entries(),
            ),
            count_waiting(final(queries)@[i as int].1.entries()) <= count_waiting(
                old(queries)@[i as int].1.entries(),
            ),
            failed_only(
                old(queries)@[i as int].1.entries(),
                final(queries)@[i as int].1.entries(),
                *node,
            ),
    {
        let entry = &mut queries[i];
        entry.1.inject_rpc_error(node);
    }

    /// Records a failure for `node` in every active lookup.
    fn fail_node_in_queries(&mut self, node: &PublicKey)
        requires
            old(self).wf(),
        ensures
            final(self).wf(),
            final(self).spec_my_id() == old(self).spec_my_id(),
            final(self).table() == old(self).table(),
            final(self).providers() == old(self).providers(),
            final(self).providing() == old(self).providing(),
            final(self).peers_map() == old(self).peers_map(),
            final(self).connected() == old(self).connected(),
            final(self).queries().len() == old(self).queries().len(),
            final(self).pending_queries() == old(self).pending_queries(),
            final(self).queued() == old(self).queued(),
            final(self).remote() == old(self).remote(),
            final(self).reported_providers() == old(self).reported_providers(),
            final(self).parked_rpcs() == old(self).parked_rpcs(),
            final(self).spec_next_refresh() == old(self).spec_next_refresh(),
            forall|l: int|
                0 <= l < old(self).queries().len() ==> query_measure(
                    (#[trigger] final(self).queries()[l]).1.entries(),
                ) <= query_measure(old(self).queries()[l].1.entries()),
            forall|l: int|
                0 <= l < old(self).queries().len() ==> (#[trigger] final(self).queries()[l]).0
                    == old(self).queries()[l].0 && final(self).queries()[l].2 == old(self).queries()[l].2 && final(self).queries()[l].1.spec_target() == old(self).queries()[l].1.spec_target() && failed_only(
                    old(self).queries()[l].1.entries(),
                    final(self).queries()[l].1.entries(),
                    *node,
                ),
    {
        let mut i: usize = 0;
        while i < self.active_queries.len()
            invariant
                0 <= i <= self.active_queries@.len(),
                self.wf(),
                self.spec_my_id() == old(self).spec_my_id(),
                self.table() == old(self).table(),
                self.providers() == old(self).providers(),
                self.providing() == old(self).providing(),
                self.peers_map() == old(self).peers_map(),
                self.connected() == old(self).connected(),
                self.active_queries@.len() == old(self).active_queries@.len(),
                self.queries_to_start@ == old(self).queries_to_start@,
                self.queued_events@ == old(self).queued_events@,
                self.remote_requests@ == old(self).remote_requests@,
                self.add_provider@ == old(self).add_provider@,
                self.pending_rpcs@ == old(self).pending_rpcs@,
                self.next_refresh_ms == old(self).next_refresh_ms,
                forall|l: int|
                    0 <= l < old(self).active_queries@.len() ==> query_measure(
                        (#[trigger] self.active_queries@[l]).1.entries(),
                    ) <= query_measure(old(self).active_queries@[l].1.entries()),
                forall|l: int|
                    0 <= l < i ==> (#[trigger] self.active_queries@[l]).0 == old(self).active_queries@[l].0 && self.active_queries@[l].2 == old(self).active_queries@[l].2 && self.active_queries@[l].1.spec_target() == old(self).active_queries@[l].1.spec_target() && failed_only(
                        old(self).active_queries@[l].1.entries(),
                        self.active_queries@[l].1.entries(),
                        *node,
                    ),
                forall|l: int|
                    i <= l < old(self).active_queries@.len() ==> self.active_queries@[l]
                        == #[trigger] old(self).active_queries@[l],
            decreases self.active_queries@.len() - i,
        {
            Kademlia::fail_node_at(&mut self.active_queries, i, node);
            i += 1;
        }
    }

    /// A transport connection closed: the peer leaves the connected set,
    /// every lookup waiting on its node records a failure, a dialed
    /// address is tagged disconnected, and the node is marked
    /// disconnected.
    pub fn inject_disconnected(&mut self, id: &PeerId, old_endpoint: ConnectedPoint)
        requires
            old(self).wf(),
        ensures
            final(self).wf(),
            final(self).providers_consistent(),
            final(self).spec_my_id() == old(self).spec_my_id(),
            forall|i: int|
                0 <= i < final(self).connected().len() ==> (#[trigger] final(self).connected()[
                    i
                ])@ != id@,
            final(self).peers_map() == old(self).peers_map(),
            final(self).queued() == old(self).queued(),
            final(self).remote() == old(self).remote(),
            final(self).pending_queries() == old(self).pending_queries(),
            !old(self).peers_map().dom().contains(id@) ==> final(self).table() == old(self).table() && final(self).queries() == old(self).queries(),
            old(self).peers_map().dom().contains(id@) ==> final(self).queries().len() == old(self).queries().len() && (forall|l: int|
                0 <= l < old(self).queries().len() ==> (#[trigger] final(self).queries()[l]).0
                    == old(self).queries()[l].0 && failed_only(
                    old(self).queries()[l].1.entries(),
                    final(self).queries()[l].1.entries(),
                    PublicKey { id: old(self).peers_map()[id@] },
                )),
            old(self).peers_map().dom().contains(id@) && old(self).table().contains_node(
                PublicKey { id: old(self).peers_map()[id@] },
            ) ==> final(self).table().contains_node(PublicKey { id: old(self).peers_map()[id@] })
                && !final(self).table().spec_connected(
                PublicKey { id: old(self).peers_map()[id@] },
            ),
            old(self).peers_map().dom().contains(id@) && old(self).table().contains_node(
                PublicKey { id: old(self).peers_map()[id@] },
            ) ==> match old_endpoint {
                ConnectedPoint::Dialer { address } => forall|k: int|
                    0 <= k < final(self).table().spec_info(
                        PublicKey { id: old(self).peers_map()[id@] },
                    ).addresses@.len() && (#[trigger] final(self).table().spec_info(
                        PublicKey { id: old(self).peers_map()[id@] },
                    ).addresses@[k]).0 == address@ ==> !final(self).table().spec_info(
                        PublicKey { id: old(self).peers_map()[id@] },
                    ).addresses@[k].1,
                ConnectedPoint::Listener => true,
            },
    {
        let ghost pre = self.connected_peers@;
        let mut remaining: Vec<PeerId> = Vec::new();
        let mut i: usize = 0;
        while i < self.connected_peers.len()
            invariant
                0 <= i <= self.connected_peers@.len(),
                self.connected_peers@ == pre,
                forall|l: int| 0 <= l < remaining@.len() ==> (#[trigger] remaining@[l])@ != id@,
            decreases self.connected_peers@.len() - i,
        {
            if !self.connected_peers[i].same_as(id) {
                let p = self.connected_peers[i].duplicate();
                let ghost pr = remaining@;
                remaining.push(p);
                proof {
                    assert((remaining@[remaining@.len() - 1])@ == pre[i as int]@);
                }
            }
            i += 1;
        }
        let ghost remg = remaining@;
        self.connected_peers = remaining;
        proof {
            assert forall|l: int| 0 <= l < self.connected().len() implies (
            #[trigger] self.connected()[l])@ != id@ by {
                assert((remg[l])@ != id@);
            }
        }
        let node = match self.node_of_peer(id) {
            Some(n) => n,
            None => {
                return ;
            },
        };
        self.fail_node_in_queries(&node);
        match old_endpoint {
            ConnectedPoint::Dialer { address } => {
                self.kbuckets.set_address_disconnected(&node, &address);
            },
            ConnectedPoint::Listener => {},
        }
        self.kbuckets.set_disconnected(&node);
    }

    /// A connection to a peer was replaced by a new one: requests its node
    /// is still expected to answer are re-sent, the old dialed address is
    /// tagged disconnected, and the new dialed address is recorded as
    /// connected.
    pub fn inject_replaced(
        &mut self,
        peer_id: PeerId,
        old_endpoint: ConnectedPoint,
        new_endpoint: ConnectedPoint,
    )
        requires
            old(self).wf(),
        ensures
            final(self).wf(),
            final(self).providers_consistent(),
            final(self).spec_my_id() == old(self).spec_my_id(),
            final(self).peers_map() == old(self).peers_map(),
            final(self).queries() == old(self).queries(),
            final(self).remote() == old(self).remote(),
            final(self).pending_queries() == old(self).pending_queries(),
            final(self).connected() == old(self).connected(),
            forall|ql: int|
                0 <= ql < old(self).queued().len() ==> #[trigger] final(self).queued()[ql] == old(self).queued()[ql],
            !old(self).peers_map().dom().contains(peer_id@) ==> final(self).queued() == old(self).queued() && final(self).table() == old(self).table(),
            old(self).peers_map().dom().contains(peer_id@) ==> forall|l: int|
                0 <= l < old(self).queries().len() && (exists|e: int|
                    0 <= e < (#[trigger] old(self).queries()[l]).1.entries().len() && (
                    #[trigger] old(self).queries()[l].1.entries()[e]).0 == (PublicKey {
                        id: old(self).peers_map()[peer_id@],
                    }) && old(self).queries()[l].1.entries()[e].1 is Waiting) ==> queued_resend_for(
                    final(self).queued(),
                    old(self).queued().len() as int,
                    peer_id@,
                    old(self).queries()[l].1.spec_target(),
                    old(self).queries()[l].0,
                ),
            old(self).peers_map().dom().contains(peer_id@) ==> table_preserved_except(
                old(self).table(),
                final(self).table(),
                PublicKey { id: old(self).peers_map()[peer_id@] },
            ),
            old(self).peers_map().dom().contains(peer_id@) && old(self).table().contains_node(
                PublicKey { id: old(self).peers_map()[peer_id@] },
            ) ==> final(self).table().contains_node(
                PublicKey { id: old(self).peers_map()[peer_id@] },
            ) && match new_endpoint {
                ConnectedPoint::Dialer { address } => has_addr(
                    final(self).table().spec_info(
                        PublicKey { id: old(self).peers_map()[peer_id@] },
                    ).addresses@,
                    address@,
                ) && forall|k: int|
                    0 <= k < final(self).table().spec_info(
                        PublicKey { id: old(self).peers_map()[peer_id@] },
                    ).addresses@.len() && (#[trigger] final(self).table().spec_info(
                        PublicKey { id: old(self).peers_map()[peer_id@] },
                    ).addresses@[k]).0 == address@ ==> final(self).table().spec_info(
                        PublicKey { id: old(self).peers_map()[peer_id@] },
                    ).addresses@[k].1,
                ConnectedPoint::Listener => true,
            },
            old(self).peers_map().dom().contains(peer_id@) && old(self).table().contains_node(
                PublicKey { id: old(self).peers_map()[peer_id@] },
            ) ==> match old_endpoint {
                ConnectedPoint::Dialer { address } => (match new_endpoint {
                    ConnectedPoint::Dialer { address: address2 } => address2@ != address@,
                    ConnectedPoint::Listener => true,
                }) ==> forall|k: int|
                    0 <= k < final(self).table().spec_info(
                        PublicKey { id: old(self).peers_map()[peer_id@] },
                    ).addresses@.len() && (#[trigger] final(self).table().spec_info(
                        PublicKey { id: old(self).peers_map()[peer_id@] },
                    ).addresses@[k]).0 == address@ ==> !final(self).table().spec_info(
                        PublicKey { id: old(self).peers_map()[peer_id@] },
                    ).addresses@[k].1,
                ConnectedPoint::Listener => true,
            },
    {
        let node = match self.node_of_peer(&peer_id) {
            Some(n) => n,
            None => {
                return ;
            },
        };
        let mut i: usize = 0;
        while i < self.active_queries.len()
            invariant
                0 <= i <= self.active_queries@.len(),
                self.wf(),
                self.spec_my_id() == old(self).spec_my_id(),
                self.active_queries@ == old(self).active_queries@,
                self.peers_map() == old(self).peers_map(),
                self.kbuckets == old(self).kbuckets,
                self.remote_requests@ == old(self).remote_requests@,
                self.queries_to_start@ == old(self).queries_to_start@,
                self.connected_peers@ == old(self).connected_peers@,
                self.values_providers@ == old(self).values_providers@,
                self.providing_keys@ == old(self).providing_keys@,
                node.id == old(self).peers_map()[peer_id@],
                old(self).peers_map().dom().contains(peer_id@),
                forall|ql: int|
                    0 <= ql < old(self).queued().len() ==> #[trigger] self.queued_events@[ql]
                        == old(self).queued()[ql],
                self.queued_events@.len() >= old(self).queued().len(),
                forall|l: int|
                    0 <= l < i && (exists|e: int|
                        0 <= e < (#[trigger] old(self).queries()[l]).1.entries().len() && (
                        #[trigger] old(self).queries()[l].1.entries()[e]).0 == node && old(self).queries()[l].1.entries()[e].1 is Waiting) ==> queued_resend_for(
                        self.queued_events@,
                        old(self).queued().len() as int,
                        peer_id@,
                        old(self).queries()[l].1.spec_target(),
                        old(self).queries()[l].0,
                    ),
            decreases self.active_queries@.len() - i,
        {
            let ghost qe_start = self.queued_events@;
            let qid = self.active_queries[i].0;
            let waiting = self.active_queries[i].1.is_waiting(&node);
            proof {
                assert(self.active_queries@[i as int].1.entries() == old(self).queries()[
                    i as int
                ].1.entries());
            }
            if waiting {
                let rpc = Kademlia::to_rpc_request(self.active_queries[i].1.target(), qid);
                self.queued_events.push(
                    NetworkAction::SendEvent { peer_id: peer_id.duplicate(), event: rpc },
                );
            }
            proof {
                assert forall|l: int|
                    0 <= l < i + 1 && (exists|e: int|
                        0 <= e < (#[trigger] old(self).queries()[l]).1.entries().len() && (
                        #[trigger] old(self).queries()[l].1.entries()[e]).0 == node && old(self).queries()[l].1.entries()[e].1 is Waiting) implies queued_resend_for(
                    self.queued_events@,
                    old(self).queued().len() as int,
                    peer_id@,
                    old(self).queries()[l].1.spec_target(),
                    old(self).queries()[l].0,
                ) by {
                    if l == i {
                        if waiting {
                            let ql = self.queued_events@.len() - 1;
                            assert(action_is_resend(
                                self.queued_events@[ql],
                                peer_id@,
                                old(self).queries()[l].1.spec_target(),
                                old(self).queries()[l].0,
                            ));
                        } else {
                            let e = choose|e: int|
                                0 <= e < old(self).queries()[l].1.entries().len() && (old(self).queries()[l].1.entries()[e]).0 == node && old(self).queries()[
                                    l
                                ].1.entries()[e].1 is Waiting;
                            assert((self.active_queries@[i as int].1.entries()[e]).0 == node
                                && self.active_queries@[i as int].1.entries()[e].1 is Waiting);
                            assert(false);
                        }
                    } else {
                        let ql0 = choose|ql0: int|
                            old(self).queued().len() <= ql0 < qe_start.len()
                                && #[trigger] action_is_resend(
                                qe_start[ql0],
                                peer_id@,
                                old(self).queries()[l].1.spec_target(),
                                old(self).queries()[l].0,
                            );
                        assert(self.queued_events@[ql0] == qe_start[ql0]);
                        assert(action_is_resend(
                            self.queued_events@[ql0],
                            peer_id@,
                            old(self).queries()[l].1.spec_target(),
                            old(self).queries()[l].0,
                        ));
                    }
                }
            }
            i += 1;
        }
        proof {
            assert(node == PublicKey { id: old(self).peers_map()[peer_id@] });
        }
        let ghost qe_done = self.queued_events@;
        let ghost oe = old_endpoint;
        let ghost ne = new_endpoint;
        match old_endpoint {
            ConnectedPoint::Dialer { address } => {
                self.kbuckets.set_address_disconnected(&node, &address);
            },
            ConnectedPoint::Listener => {},
        }
        let ghost tabmid = self.kbuckets;
        match new_endpoint {
            ConnectedPoint::Dialer { address } => {
                self.kbuckets.add_connected_address(&node, &address);
            },
            ConnectedPoint::Listener => {},
        }
        proof {
            assert(self.queued() == qe_done);
            assert(table_preserved_except(old(self).table(), self.table(), node));
            if old(self).table().contains_node(node) {
                match oe {
                    ConnectedPoint::Dialer { address } => {
                        let a1 = address@;
                        let crossing = match ne {
                            ConnectedPoint::Dialer { address: address2 } => address2@ != a1,
                            ConnectedPoint::Listener => true,
                        };
                        if crossing {
                            assert forall|k: int|
                                0 <= k < self.table().spec_info(node).addresses@.len() && (
                                #[trigger] self.table().spec_info(node).addresses@[k]).0
                                    == a1 implies !self.table().spec_info(node).addresses@[k].1 by {
                                match ne {
                                    ConnectedPoint::Dialer { address: address2 } => {
                                        let j = choose|j: int|
                                            0 <= j < tabmid.spec_info(node).addresses@.len()
                                                && tabmid.spec_info(node).addresses@[j]
                                                == self.table().spec_info(node).addresses@[k];
                                        assert(tabmid.spec_info(node).addresses@[j].0 == a1);
                                        assert(!tabmid.spec_info(node).addresses@[j].1);
                                    },
                                    ConnectedPoint::Listener => {
                                        assert(self.kbuckets == tabmid);
                                    },
                                }
                            }
                        }
                    },
                    ConnectedPoint::Listener => {},
                }
            }
        }
    }

    /// Queues a discovery report for one node mentioned on the wire.
    fn queue_discovered(&mut self, peer: &KadPeer)
        requires
            old(self).wf(),
        ensures
            final(self).wf(),
            final(self).spec_my_id() == old(self).spec_my_id(),
            final(self).table() == old(self).table(),
            final(self).providers() == old(self).providers(),
            final(self).providing() == old(self).providing(),
            final(self).peers_map() == old(self).peers_map(),
            final(self).remote() == old(self).remote(),
            final(self).reported_providers() == old(self).reported_providers(),
            final(self).queries() == old(self).queries(),
            final(self).pending_queries() == old(self).pending_queries(),
            final(self).connected() == old(self).connected(),
            final(self).queued().len() == old(self).queued().len() + 1,
            final(self).queued().drop_last() == old(self).queued(),
            forall|ql: int|
                0 <= ql < old(self).queued().len() ==> #[trigger] final(self).queued()[ql] == old(self).queued()[ql],
            action_discovers(final(self).queued().last(), peer.node_id),
    {
        let peer_id = match &peer.peer_id {
            Some(p) => Some(p.duplicate()),
            None => None,
        };
        let mut addresses: Vec<Multiaddr> = Vec::new();
        let mut i: usize = 0;
        while i < peer.multiaddrs.len()
            invariant
                0 <= i <= peer.multiaddrs@.len(),
            decreases peer.multiaddrs@.len() - i,
        {
            addresses.push(peer.multiaddrs[i].duplicate());
            i += 1;
        }
        self.queued_events.push(
            NetworkAction::GenerateEvent(
                KademliaOut::Discovered {
                    node_id: peer.node_id,
                    peer_id,
                    addresses,
                    ty: peer.connection_ty,
                },
            ),
        );
    }

    /// The position of the lookup with this handle, if it is still active.
    fn query_position(&self, user_data: QueryId) -> (r: Option<usize>)
        ensures
            match r {
                Some(i) => i < self.queries().len() && self.queries()[i as int].0 == user_data.0
                    && forall|qj: int|
                    0 <= qj < i ==> (#[trigger] self.queries()[qj]).0 != user_data.0,
                None => forall|qj: int|
                    0 <= qj < self.queries().len() ==> (#[trigger] self.queries()[qj]).0
                        != user_data.0,
            },
    {
        let mut i: usize = 0;
        while i < self.active_queries.len()
            invariant
                0 <= i <= self.active_queries@.len(),
                forall|qj: int|
                    0 <= qj < i ==> (#[trigger] self.active_queries@[qj]).0 != user_data.0,
            decreases self.active_queries@.len() - i,
        {
            if self.active_queries[i].0 == user_data.0 {
                return Some(i);
            }
            i += 1;
        }
        None
    }

    /// A message arrived from a peer: requests are parked for answering on
    /// the next polls; replies report every mentioned node as discovered
    /// and settle the matching lookup; provider announcements are folded
    /// in on the next poll.  A reply for a lookup that already finished,
    /// or from a peer with no known node, leaves the lookups untouched.
    pub fn inject_node_event(&mut self, source: PeerId, event: KademliaHandlerEvent)
        requires
            old(self).wf(),
        ensures
            final(self).wf(),
            final(self).providers_consistent(),
            final(self).spec_my_id() == old(self).spec_my_id(),
            final(self).peers_map() == old(self).peers_map(),
            final(self).pending_queries() == old(self).pending_queries(),
            final(self).connected() == old(self).connected(),
            forall|ql: int|
                0 <= ql < old(self).queued().len() ==> #[trigger] final(self).queued()[ql] == old(self).queued()[ql],
            match event {
                KademliaHandlerEvent::FindNodeReq { key, request_id } => if key@.len()
                    == KAD_KEY_LEN {
                    final(self).remote().len() == old(self).remote().len() + 1 && final(self).remote().last().1 == request_id && target_hash(final(self).remote().last().2)
                        == key@ && final(self).remote().last().2 is FindPeer && final(self).queries() == old(self).queries()
                } else {
                    final(self).remote() == old(self).remote()
                },
                KademliaHandlerEvent::GetProvidersReq { key, request_id } => if key@.len()
                    == KAD_KEY_LEN {
                    final(self).remote().len() == old(self).remote().len() + 1 && final(self).remote().last().1 == request_id && target_hash(final(self).remote().last().2)
                        == key@ && final(self).remote().last().2 is GetProviders && final(self).queries() == old(self).queries()
                } else {
                    final(self).remote() == old(self).remote()
                },
                KademliaHandlerEvent::FindNodeRes { closer_peers, user_data } => {
                    &&& final(self).queued().len() == old(self).queued().len()
                        + closer_peers@.len()
                    &&& forall|x: int|
                        0 <= x < closer_peers@.len() ==> action_discovers(
                            final(self).queued()[old(self).queued().len() + x],
                            (#[trigger] closer_peers@[x]).node_id,
                        )
                    &&& ((forall|qj: int|
                        0 <= qj < old(self).queries().len() ==> (#[trigger] old(self).queries()[
                            qj
                        ]).0 != user_data.0) ==> final(self).queries() == old(self).queries())
                    &&& final(self).queries().len() == old(self).queries().len()
                    &&& forall|qi: int|
                        0 <= qi < old(self).queries().len() && (#[trigger] old(self).queries()[
                            qi
                        ]).0 == user_data.0 && (forall|qj: int|
                            0 <= qj < qi ==> (#[trigger] old(self).queries()[qj]).0
                                != user_data.0) && old(self).peers_map().dom().contains(source@)
                            ==> (has_waiting(
                            old(self).queries()[qi].1.entries(),
                            PublicKey { id: old(self).peers_map()[source@] },
                        ) ==> has_succeeded(
                            final(self).queries()[qi].1.entries(),
                            PublicKey { id: old(self).peers_map()[source@] },
                        )) && (forall|qj: int|
                            0 <= qj < old(self).queries().len() && qj != qi
                                ==> #[trigger] final(self).queries()[qj] == old(self).queries()[
                                qj
                            ])
                },
                KademliaHandlerEvent::GetProvidersRes { closer_peers, provider_peers, user_data } => {
                    &&& final(self).queued().len() == old(self).queued().len()
                        + closer_peers@.len() + provider_peers@.len()
                    &&& forall|x: int|
                        0 <= x < closer_peers@.len() ==> action_discovers(
                            final(self).queued()[old(self).queued().len() + x],
                            (#[trigger] closer_peers@[x]).node_id,
                        )
                    &&& forall|x: int|
                        0 <= x < provider_peers@.len() ==> action_discovers(
                            final(self).queued()[old(self).queued().len() + closer_peers@.len()
                                + x],
                            (#[trigger] provider_peers@[x]).node_id,
                        )
                    &&& ((forall|qj: int|
                        0 <= qj < old(self).queries().len() ==> (#[trigger] old(self).queries()[
                            qj
                        ]).0 != user_data.0) ==> final(self).queries() == old(self).queries())
                    &&& final(self).queries().len() == old(self).queries().len()
                    &&& forall|qi: int|
                        0 <= qi < old(self).queries().len() && (#[trigger] old(self).queries()[
                            qi
                        ]).0 == user_data.0 && (forall|qj: int|
                            0 <= qj < qi ==> (#[trigger] old(self).queries()[qj]).0
                                != user_data.0) ==> final(self).queries()[qi].3@.len() == old(self).queries()[qi].3@.len() + provider_peers@.len() && (forall|x: int|
                            0 <= x < provider_peers@.len() ==> final(self).queries()[qi].3@[old(self).queries()[qi].3@.len() + x] == (
                            #[trigger] provider_peers@[x]).node_id) && (forall|qj: int|
                            0 <= qj < old(self).queries().len() && qj != qi
                                ==> #[trigger] final(self).queries()[qj] == old(self).queries()[
                                qj
                            ]) && (old(self).peers_map().dom().contains(source@) ==> (has_waiting(
                            old(self).queries()[qi].1.entries(),
                            PublicKey { id: old(self).peers_map()[source@] },
                        ) ==> has_succeeded(
                            final(self).queries()[qi].1.entries(),
                            PublicKey { id: old(self).peers_map()[source@] },
                        )))
                },
                KademliaHandlerEvent::QueryError { user_data } => {
                    &&& final(self).queued() == old(self).queued()
                    &&& final(self).queries().len() == old(self).queries().len()
                    &&& ((forall|qj: int|
                        0 <= qj < old(self).queries().len() ==> (#[trigger] old(self).queries()[
                            qj
                        ]).0 != user_data.0) ==> final(self).queries() == old(self).queries())
                    &&& forall|qi: int|
                        0 <= qi < old(self).queries().len() && (#[trigger] old(self).queries()[
                            qi
                        ]).0 == user_data.0 && (forall|qj: int|
                            0 <= qj < qi ==> (#[trigger] old(self).queries()[qj]).0
                                != user_data.0) && old(self).peers_map().dom().contains(source@)
                            ==> failed_only(
                            old(self).queries()[qi].1.entries(),
                            final(self).queries()[qi].1.entries(),
                            PublicKey { id: old(self).peers_map()[source@] },
                        ) && (forall|qj: int|
                            0 <= qj < old(self).queries().len() && qj != qi
                                ==> #[trigger] final(self).queries()[qj] == old(self).queries()[
                                qj
                            ])
                },
                KademliaHandlerEvent::AddProvider { key, provider_peer } => {
                    &&& final(self).queued().len() == old(self).queued().len() + 1
                    &&& action_discovers(final(self).queued().last(), provider_peer.node_id)
                    &&& final(self).queries() == old(self).queries()
                    &&& if key@.len() == KAD_KEY_LEN {
                        final(self).reported_providers().len() == old(self).reported_providers().len() + 1 && final(self).reported_providers().last().0@ == key@ && final(self).reported_providers().last().1 == provider_peer.node_id
                    } else {
                        final(self).reported_providers() == old(self).reported_providers()
                    }
                },
            },
    {
        match event {
            KademliaHandlerEvent::FindNodeReq { key, request_id } => {
                if key.bytes.len() == KAD_KEY_LEN {
                    self.remote_requests.push((source, request_id, QueryTarget::FindPeer(key)));
                }
            },
            KademliaHandlerEvent::GetProvidersReq { key, request_id } => {
                if key.bytes.len() == KAD_KEY_LEN {
                    self.remote_requests.push(
                        (source, request_id, QueryTarget::GetProviders(key)),
                    );
                }
            },
            KademliaHandlerEvent::FindNodeRes { closer_peers, user_data } => {
                let mut i: usize = 0;
                while i < closer_peers.len()
                    invariant
                        0 <= i <= closer_peers@.len(),
                        self.wf(),
                        self.spec_my_id() == old(self).spec_my_id(),
                        self.peers_map() == old(self).peers_map(),
                        self.queries() == old(self).queries(),
                        self.remote() == old(self).remote(),
                        self.pending_queries() == old(self).pending_queries(),
                        self.connected() == old(self).connected(),
                        self.reported_providers() == old(self).reported_providers(),
                        self.queued_events@.len() == old(self).queued().len() + i,
                        forall|ql: int|
                            0 <= ql < old(self).queued().len() ==> #[trigger] self.queued_events@[
                                ql
                            ] == old(self).queued()[ql],
                        forall|x: int|
                            0 <= x < i ==> action_discovers(
                                self.queued_events@[old(self).queued().len() + x],
                                (#[trigger] closer_peers@[x]).node_id,
                            ),
                    decreases closer_peers@.len() - i,
                {
                    self.queue_discovered(&closer_peers[i]);
                    i += 1;
                }
                match self.query_position(user_data) {
                    Some(qi) => {
                        match self.node_of_peer(&source) {
                            Some(node) => {
                                // our own identity never becomes a candidate
                                let me = self.my_id;
                                let mut ids: Vec<PublicKey> = Vec::new();
                                let mut l: usize = 0;
                                while l < closer_peers.len()
                                    invariant
                                        0 <= l <= closer_peers@.len(),
                                    decreases closer_peers@.len() - l,
                                {
                                    if closer_peers[l].node_id.id != me.id {
                                        ids.push(closer_peers[l].node_id);
                                    }
                                    l += 1;
                                }
                                let entry = &mut self.active_queries[qi];
                                entry.1.inject_rpc_result(&node, &ids);
                                proof {
                                    assert(node == PublicKey {
                                        id: old(self).peers_map()[source@],
                                    });
                                }
                            },
                            None => {},
                        }
                    },
                    None => {},
                }
            },
            KademliaHandlerEvent::GetProvidersRes { closer_peers, provider_peers, user_data } => {
                let mut i: usize = 0;
                while i < closer_peers.len()
                    invariant
                        0 <= i <= closer_peers@.len(),
                        self.wf(),
                        self.spec_my_id() == old(self).spec_my_id(),
                        self.peers_map() == old(self).peers_map(),
                        self.queries() == old(self).queries(),
                        self.remote() == old(self).remote(),
                        self.pending_queries() == old(self).pending_queries(),
                        self.connected() == old(self).connected(),
                        self.reported_providers() == old(self).reported_providers(),
                        self.queued_events@.len() == old(self).queued().len() + i,
                        forall|ql: int|
                            0 <= ql < old(self).queued().len() ==> #[trigger] self.queued_events@[
                                ql
                            ] == old(self).queued()[ql],
                        forall|x: int|
                            0 <= x < i ==> action_discovers(
                                self.queued_events@[old(self).queued().len() + x],
                                (#[trigger] closer_peers@[x]).node_id,
                            ),
                    decreases closer_peers@.len() - i,
                {
                    self.queue_discovered(&closer_peers[i]);
                    i += 1;
                }
                let mut i2: usize = 0;
                while i2 < provider_peers.len()
                    invariant
                        0 <= i2 <= provider_peers@.len(),
                        self.wf(),
                        self.spec_my_id() == old(self).spec_my_id(),
                        self.peers_map() == old(self).peers_map(),
                        self.queries() == old(self).queries(),
                        self.remote() == old(self).remote(),
                        self.pending_queries() == old(self).pending_queries(),
                        self.connected() == old(self).connected(),
                        self.reported_providers() == old(self).reported_providers(),
                        self.queued_events@.len() == old(self).queued().len()
                            + closer_peers@.len() + i2,
                        forall|ql: int|
                            0 <= ql < old(self).queued().len() ==> #[trigger] self.queued_events@[
                                ql
                            ] == old(self).queued()[ql],
                        forall|x: int|
                            0 <= x < closer_peers@.len() ==> action_discovers(
                                self.queued_events@[old(self).queued().len() + x],
                                (#[trigger] closer_peers@[x]).node_id,
                            ),
                        forall|x: int|
                            0 <= x < i2 ==> action_discovers(
                                self.queued_events@[old(self).queued().len()
                                    + closer_peers@.len() + x],
                                (#[trigger] provider_peers@[x]).node_id,
                            ),
                    decreases provider_peers@.len() - i2,
                {
                    self.queue_discovered(&provider_peers[i2]);
                    i2 += 1;
                }
                match self.query_position(user_data) {
                    Some(qi) => {
                        let ghost q_before = self.active_queries@;
                        let mut l: usize = 0;
                        while l < provider_peers.len()
                            invariant
                                0 <= l <= provider_peers@.len(),
                                qi < self.active_queries@.len(),
                                self.wf(),
                                self.spec_my_id() == old(self).spec_my_id(),
                                self.peers_map() == old(self).peers_map(),
                                self.remote() == old(self).remote(),
                                self.pending_queries() == old(self).pending_queries(),
                                self.connected() == old(self).connected(),
                                self.reported_providers() == old(self).reported_providers(),
                                self.queued_events@.len() == old(self).queued().len()
                                    + closer_peers@.len() + provider_peers@.len(),
                                forall|ql: int|
                                    0 <= ql < old(self).queued().len()
                                        ==> #[trigger] self.queued_events@[ql] == old(self).queued()[ql],
                                forall|x: int|
                                    0 <= x < closer_peers@.len() ==> action_discovers(
                                        self.queued_events@[old(self).queued().len() + x],
                                        (#[trigger] closer_peers@[x]).node_id,
                                    ),
                                forall|x: int|
                                    0 <= x < provider_peers@.len() ==> action_discovers(
                                        self.queued_events@[old(self).queued().len()
                                            + closer_peers@.len() + x],
                                        (#[trigger] provider_peers@[x]).node_id,
                                    ),
                                self.active_queries@.len() == q_before.len(),
                                forall|qj: int|
                                    0 <= qj < q_before.len() && qj != qi
                                        ==> #[trigger] self.active_queries@[qj] == q_before[qj],
                                self.active_queries@[qi as int].0 == q_before[qi as int].0,
                                self.active_queries@[qi as int].1 == q_before[qi as int].1,
                                self.active_queries@[qi as int].2 == q_before[qi as int].2,
                                self.active_queries@[qi as int].3@.len() == q_before[
                                    qi as int
                                ].3@.len() + l,
                                forall|x: int|
                                    0 <= x < l ==> self.active_queries@[qi as int].3@[q_before[
                                        qi as int
                                    ].3@.len() + x] == (#[trigger] provider_peers@[x]).node_id,
                                forall|x: int|
                                    0 <= x < q_before[qi as int].3@.len()
                                        ==> #[trigger] self.active_queries@[qi as int].3@[x]
                                        == q_before[qi as int].3@[x],
                            decreases provider_peers@.len() - l,
                        {
                            let p = provider_peers[l].node_id;
                            let entry = &mut self.active_queries[qi];
                            entry.3.push(p);
                            l += 1;
                        }
                        match self.node_of_peer(&source) {
                            Some(node) => {
                                let mut ids: Vec<PublicKey> = Vec::new();
                                let mut l2: usize = 0;
                                while l2 < closer_peers.len()
                                    invariant
                                        0 <= l2 <= closer_peers@.len(),
                                    decreases closer_peers@.len() - l2,
                                {
                                    ids.push(closer_peers[l2].node_id);
                                    l2 += 1;
                                }
                                if qi < self.active_queries.len() {
                                    let entry = &mut self.active_queries[qi];
                                    entry.1.inject_rpc_result(&node, &ids);
                                    proof {
                                        assert(node == PublicKey {
                                            id: old(self).peers_map()[source@],
                                        });
                                    }
                                }
                            },
                            None => {},
                        }
                    },
                    None => {},
                }
            },
            KademliaHandlerEvent::QueryError { user_data } => {
                match self.query_position(user_data) {
                    Some(qi) => {
                        match self.node_of_peer(&source) {
                            Some(node) => {
                                if qi < self.active_queries.len() {
                                    let entry = &mut self.active_queries[qi];
                                    entry.1.inject_rpc_error(&node);
                                    proof {
                                        assert(node == PublicKey {
                                            id: old(self).peers_map()[source@],
                                        });
                                    }
                                }
                            },
                            None => {},
                        }
                    },
                    None => {},
                }
            },
            KademliaHandlerEvent::AddProvider { key, provider_peer } => {
                self.queue_discovered(&provider_peer);
                if key.bytes.len() == KAD_KEY_LEN {
                    self.add_provider.push((key, provider_peer.node_id));
                }
            },
        }
    }

    /// The addresses to dial a peer on: those recorded for its node, in
    /// order; an unmapped peer or an unknown node yields none.
    pub fn addresses_of_peer(&mut self, peer_id: &PeerId) -> (r: Vec<Multiaddr>)
        requires
            old(self).wf(),
        ensures
            final(self).wf(),
            final(self).spec_my_id() == old(self).spec_my_id(),
            final(self).table() == old(self).table(),
            final(self).peers_map() == old(self).peers_map(),
            !old(self).peers_map().dom().contains(peer_id@) ==> r@.len() == 0,
            old(self).peers_map().dom().contains(peer_id@) && !old(self).table().contains_node(
                PublicKey { id: old(self).peers_map()[peer_id@] },
            ) ==> r@.len() == 0,
            old(self).peers_map().dom().contains(peer_id@) && old(self).table().contains_node(
                PublicKey { id: old(self).peers_map()[peer_id@] },
            ) ==> r@.len() == old(self).table().spec_info(
                PublicKey { id: old(self).peers_map()[peer_id@] },
            ).addresses@.len() && (forall|i: int|
                0 <= i < r@.len() ==> (#[trigger] r@[i])@ == old(self).table().spec_info(
                    PublicKey { id: old(self).peers_map()[peer_id@] },
                ).addresses@[i].0),
    {
        let node = match self.node_of_peer(peer_id) {
            Some(n) => n,
            None => {
                return Vec::new();
            },
        };
        match self.kbuckets.get(&node) {
            Some(info) => info.addresses.addr_list(),
            None => Vec::new(),
        }
    }

    /// Describes a node for the wire: its identity, transport identity if
    /// known, addresses, and whether this node is connected to it.  This
    /// node describes itself with its own transport identity and external
    /// addresses.
    fn build_kad_peer(
        &self,
        node_id: PublicKey,
        local_peer: &PeerId,
        external_addresses: &Vec<Multiaddr>,
    ) -> (r: KadPeer)
        requires
            self.wf(),
        ensures
            r.node_id == node_id,
            kad_peer_describes(
                self.spec_my_id(),
                self.table(),
                local_peer@,
                external_addresses@,
                node_id,
                r,
            ),
    {
        if node_id.id == self.my_id.id {
            let mut addrs: Vec<Multiaddr> = Vec::new();
            let mut i: usize = 0;
            while i < external_addresses.len()
                invariant
                    0 <= i <= external_addresses@.len(),
                    addrs@.len() == i,
                    forall|l: int|
                        0 <= l < i ==> (#[trigger] addrs@[l])@ == external_addresses@[l]@,
                decreases external_addresses@.len() - i,
            {
                addrs.push(external_addresses[i].duplicate());
                i += 1;
            }
            KadPeer {
                node_id,
                peer_id: Some(local_peer.duplicate()),
                multiaddrs: addrs,
                connection_ty: KadConnectionType::Connected,
            }
        } else {
            match self.kbuckets.get(&node_id) {
                Some(info) => {
                    let connection_ty = if info.addresses.is_connected() {
                        KadConnectionType::Connected
                    } else {
                        KadConnectionType::NotConnected
                    };
                    KadPeer {
                        node_id,
                        peer_id: info.peer_id(),
                        multiaddrs: info.addresses.addr_list(),
                        connection_ty,
                    }
                },
                None => KadPeer {
                    node_id,
                    peer_id: None,
                    multiaddrs: Vec::new(),
                    connection_ty: KadConnectionType::NotConnected,
                },
            }
        }
    }

    /// Builds the reply to a peer's request: the up to `NUM_RESULTS`
    /// closest known nodes (this node included), and for a provider
    /// request also the recorded providers of the key.
    fn build_result(
        &self,
        query: &QueryTarget,
        request_id: u64,
        local_peer: &PeerId,
        external_addresses: &Vec<Multiaddr>,
    ) -> (r: KademliaHandlerIn)
        requires
            self.wf(),
            query.wf(),
        ensures
            r is FindNodeRes <==> query is FindPeer,
            r is GetProvidersRes <==> query is GetProviders,
            match r {
                KademliaHandlerIn::FindNodeRes { closer_peers, request_id: rid } => rid
                    == request_id && closer_list_ok(
                    self.spec_my_id(),
                    self.table(),
                    local_peer@,
                    external_addresses@,
                    target_hash(*query),
                    closer_peers@,
                ),
                KademliaHandlerIn::GetProvidersRes { closer_peers, provider_peers, request_id: rid } => {
                    &&& rid == request_id
                    &&& closer_list_ok(
                        self.spec_my_id(),
                        self.table(),
                        local_peer@,
                        external_addresses@,
                        target_hash(*query),
                        closer_peers@,
                    )
                    &&& (prov_has(self.providers(), target_hash(*query)) ==> provider_peers@.len()
                        == prov_of(self.providers(), target_hash(*query)).len() && forall|i: int|
                        0 <= i < provider_peers@.len() ==> (#[trigger] provider_peers@[i]).node_id
                            == prov_of(self.providers(), target_hash(*query))[i]
                            && kad_peer_describes(
                            self.spec_my_id(),
                            self.table(),
                            local_peer@,
                            external_addresses@,
                            provider_peers@[i].node_id,
                            provider_peers@[i],
                        ))
                    &&& (!prov_has(self.providers(), target_hash(*query)) ==> provider_peers@.len()
                        == 0)
                },
                _ => false,
            },
    {
        let hash = query.as_hash();
        let ghost t = target_hash(*query);
        let all = self.kbuckets.find_closest_with_self(hash);
        let take = if all.len() < NUM_RESULTS {
            all.len()
        } else {
            NUM_RESULTS
        };
        let mut closer_peers: Vec<KadPeer> = Vec::new();
        let mut i: usize = 0;
        while i < take
            invariant
                0 <= i <= take,
                take <= all@.len(),
                take <= NUM_RESULTS,
                self.wf(),
                closer_peers@.len() == i,
                forall|l: int|
                    0 <= l < i ==> (#[trigger] closer_peers@[l]).node_id == all@[l]
                        && kad_peer_describes(
                        self.spec_my_id(),
                        self.table(),
                        local_peer@,
                        external_addresses@,
                        all@[l],
                        closer_peers@[l],
                    ),
            decreases take - i,
        {
            let kp = self.build_kad_peer(all[i], local_peer, external_addresses);
            closer_peers.push(kp);
            i += 1;
        }
        proof {
            assert(closer_list_ok(
                self.spec_my_id(),
                self.table(),
                local_peer@,
                external_addresses@,
                t,
                closer_peers@,
            )) by {
                assert forall|x: int, y: int|
                    0 <= x < y < closer_peers@.len() implies dist_le(
                    node_key_spec((#[trigger] closer_peers@[x]).node_id),
                    node_key_spec((#[trigger] closer_peers@[y]).node_id),
                    t,
                ) && closer_peers@[x].node_id != closer_peers@[y].node_id by {
                    assert(closer_peers@[x].node_id == all@[x]);
                    assert(closer_peers@[y].node_id == all@[y]);
                }
                assert forall|m: PublicKey|
                    #![trigger node_key_spec(m)]
                    (self.table().contains_node(m) || m == self.spec_my_id()) && !kad_listed(
                        closer_peers@,
                        m,
                    ) implies forall|l: int|
                    0 <= l < closer_peers@.len() ==> dist_le(
                        node_key_spec((#[trigger] closer_peers@[l]).node_id),
                        node_key_spec(m),
                        t,
                    ) by {
                    assert(all@.contains(m));
                    let j = choose|j: int| 0 <= j < all@.len() && all@[j] == m;
                    assert(j >= take as int) by {
                        if j < take as int {
                            assert(closer_peers@[j].node_id == m);
                        }
                    }
                    assert forall|l: int| 0 <= l < closer_peers@.len() implies dist_le(
                        node_key_spec((#[trigger] closer_peers@[l]).node_id),
                        node_key_spec(m),
                        t,
                    ) by {
                        assert(closer_peers@[l].node_id == all@[l]);
                        assert(dist_le(node_key_spec(all@[l]), node_key_spec(all@[j]), t));
                    }
                }
            }
        }
        match query {
            QueryTarget::FindPeer(_) => KademliaHandlerIn::FindNodeRes { closer_peers, request_id },
            QueryTarget::GetProviders(key) => {
                let ghost prov = self.values_providers@;
                let mut provider_peers: Vec<KadPeer> = Vec::new();
                let mut pi: usize = 0;
                while pi < self.values_providers.len()
                    invariant
                        0 <= pi <= prov.len(),
                        self.wf(),
                        self.values_providers@ == prov,
                        key@ == t,
                        forall|l: int|
                            0 <= l < pi && (#[trigger] prov[l]).0@ == key@ ==> provider_peers@.len()
                                == prov[l].1@.len() && (forall|x: int|
                                0 <= x < provider_peers@.len() ==> (
                                #[trigger] provider_peers@[x]).node_id == prov[l].1@[x]
                                    && kad_peer_describes(
                                    self.spec_my_id(),
                                    self.table(),
                                    local_peer@,
                                    external_addresses@,
                                    provider_peers@[x].node_id,
                                    provider_peers@[x],
                                )),
                        (forall|l: int| 0 <= l < pi ==> (#[trigger] prov[l]).0@ != key@)
                            ==> provider_peers@.len() == 0,
                    decreases prov.len() - pi,
                {
                    if self.values_providers[pi].0.same_as(key) {
                        let n_prov = self.values_providers[pi].1.len();
                        let mut j: usize = 0;
                        while j < n_prov
                            invariant
                                0 <= j <= n_prov,
                                pi < prov.len(),
                                self.wf(),
                                self.values_providers@ == prov,
                                n_prov == prov[pi as int].1@.len(),
                                provider_peers@.len() == j,
                                forall|x: int|
                                    0 <= x < j ==> (#[trigger] provider_peers@[x]).node_id
                                        == prov[pi as int].1@[x] && kad_peer_describes(
                                        self.spec_my_id(),
                                        self.table(),
                                        local_peer@,
                                        external_addresses@,
                                        provider_peers@[x].node_id,
                                        provider_peers@[x],
                                    ),
                            decreases n_prov - j,
                        {
                            let p = self.values_providers[pi].1[j];
                            let kp = self.build_kad_peer(p, local_peer, external_addresses);
                            provider_peers.push(kp);
                            j += 1;
                        }
                    }
                    pi += 1;
                }
                proof {
                    if prov_has(prov, key@) {
                        let l0 = prov_idx(prov, key@);
                        assert(0 <= l0 < prov.len() && prov[l0].0@ == key@);
                        lemma_prov_lookup(prov, key@, l0);
                    }
                }
                KademliaHandlerIn::GetProvidersRes { closer_peers, provider_peers, request_id }
            },
        }
    }

    /// Drives the behavior one step at time `now` and hands the driver
    /// the next action, or `None` when nothing can progress before the
    /// next event or deadline.  In order: reported providers are folded
    /// into the provider table (never this node itself); when the
    /// refresh deadline passes, a provider lookup is scheduled for every
    /// key this node provides; scheduled lookups start, seeded with the
    /// closest known nodes; a peer's request is answered; a queued
    /// action is handed out; and each active lookup is driven,
    /// dispatching its requests to connected peers, dialing known but
    /// unconnected ones, failing candidates with no known transport
    /// identity, and settling finished lookups according to their
    /// purpose.  `None` is returned only once no lookup can dispatch
    /// another request: each is either at its parallelism allowance or
    /// out of uncontacted candidates in its result window.
    #[verifier::rlimit(60)]
    pub fn poll(
        &mut self,
        now: u64,
        local_peer: &PeerId,
        external_addresses: &Vec<Multiaddr>,
    ) -> (r: Option<NetworkAction>)
        requires
            old(self).wf(),
        ensures
            final(self).wf(),
            final(self).providers_consistent(),
            final(self).spec_my_id() == old(self).spec_my_id(),
            final(self).providing() == old(self).providing(),
            final(self).reported_providers().len() == 0,
            forall|x: int|
                0 <= x < old(self).reported_providers().len() && (#[trigger] old(self).reported_providers()[x]).1 != old(self).spec_my_id() ==> prov_has(
                    final(self).providers(),
                    old(self).reported_providers()[x].0@,
                ) && prov_of(final(self).providers(), old(self).reported_providers()[x].0@).contains(
                    old(self).reported_providers()[x].1,
                ),
            final(self).pending_queries().len() == 0,
            now < old(self).spec_next_refresh() ==> final(self).spec_next_refresh() == old(
                self,
            ).spec_next_refresh(),
            now >= old(self).spec_next_refresh() ==> final(self).spec_next_refresh() == (if now
                > u64::MAX - PROVIDER_REFRESH_MS {
                u64::MAX
            } else {
                (now + PROVIDER_REFRESH_MS) as u64
            }),
            old(self).remote().len() > 0 ==> match r {
                Some(a) => match a {
                    NetworkAction::SendEvent { peer_id, event } => peer_id@ == old(self).remote()[0].0@ && final(self).remote() == old(self).remote().drop_first() && match event {
                        KademliaHandlerIn::FindNodeRes { closer_peers, request_id } => {
                            &&& old(self).remote()[0].2 is FindPeer
                            &&& request_id == old(self).remote()[0].1
                            &&& closer_list_ok(
                                final(self).spec_my_id(),
                                final(self).table(),
                                local_peer@,
                                external_addresses@,
                                target_hash(old(self).remote()[0].2),
                                closer_peers@,
                            )
                        },
                        KademliaHandlerIn::GetProvidersRes { closer_peers, provider_peers, request_id } => {
                            &&& old(self).remote()[0].2 is GetProviders
                            &&& request_id == old(self).remote()[0].1
                            &&& closer_list_ok(
                                final(self).spec_my_id(),
                                final(self).table(),
                                local_peer@,
                                external_addresses@,
                                target_hash(old(self).remote()[0].2),
                                closer_peers@,
                            )
                            &&& (prov_has(
                                final(self).providers(),
                                target_hash(old(self).remote()[0].2),
                            ) ==> provider_peers@.len() == prov_of(
                                final(self).providers(),
                                target_hash(old(self).remote()[0].2),
                            ).len() && forall|i: int|
                                0 <= i < provider_peers@.len() ==> (
                                #[trigger] provider_peers@[i]).node_id == prov_of(
                                    final(self).providers(),
                                    target_hash(old(self).remote()[0].2),
                                )[i] && kad_peer_describes(
                                    final(self).spec_my_id(),
                                    final(self).table(),
                                    local_peer@,
                                    external_addresses@,
                                    provider_peers@[i].node_id,
                                    provider_peers@[i],
                                ))
                            &&& (!prov_has(
                                final(self).providers(),
                                target_hash(old(self).remote()[0].2),
                            ) ==> provider_peers@.len() == 0)
                        },
                        _ => false,
                    },
                    _ => false,
                },
                None => false,
            },
            old(self).remote().len() == 0 && old(self).queued().len() > 0 ==> match r {
                Some(a) => a == old(self).queued()[0] && final(self).queued() == old(self).queued().drop_first(),
                None => false,
            },
            old(self).remote().len() == 0 && old(self).queued().len() == 0 ==> match r {
                Some(a) => match a {
                    NetworkAction::SendEvent { peer_id, event } => ((exists|ci: int|
                        0 <= ci < final(self).connected().len() && (#[trigger] final(self).connected()[ci])@ == peer_id@) && exists|qi: int|
                        0 <= qi < final(self).queries().len() && is_rpc_request_for(
                            event,
                            (#[trigger] final(self).queries()[qi]).1.spec_target(),
                            final(self).queries()[qi].0,
                        ) && exists|e: int|
                            0 <= e < final(self).queries()[qi].1.entries().len() && peer_view(
                                final(self).table().spec_info(
                                    (#[trigger] final(self).queries()[qi].1.entries()[e]).0,
                                ),
                            ) == Some(peer_id@) && final(self).queries()[qi].1.entries()[
                                e
                            ].1 is Waiting) || action_announces(
                        a,
                        final(self).spec_my_id(),
                        final(self).table(),
                        local_peer@,
                        external_addresses@,
                    ),
                    NetworkAction::DialPeer { peer_id } => {
                        &&& final(self).parked_rpcs().len() >= 1
                        &&& (exists|qi: int|
                            0 <= qi < final(self).queries().len() && is_rpc_request_for(
                                final(self).parked_rpcs().last().1,
                                (#[trigger] final(self).queries()[qi]).1.spec_target(),
                                final(self).queries()[qi].0,
                            ))
                        &&& peer_view(
                            final(self).table().spec_info(final(self).parked_rpcs().last().0),
                        ) == Some(peer_id@)
                        &&& forall|ci: int|
                            0 <= ci < final(self).connected().len() ==> (#[trigger] final(self).connected()[ci])@ != peer_id@
                    },
                    NetworkAction::GenerateEvent(ev) => match ev {
                        KademliaOut::FindNodeResult { key, closer_peers } => {
                            &&& forall|i: int, j: int|
                                0 <= i < j < closer_peers@.len() ==> dist_lt(
                                    node_key_spec(#[trigger] closer_peers@[i]),
                                    node_key_spec(#[trigger] closer_peers@[j]),
                                    key@,
                                )
                            &&& forall|i: int, j: int|
                                0 <= i < j < closer_peers@.len() ==> closer_peers@[i]
                                    != closer_peers@[j]
                        },
                        KademliaOut::GetProvidersResult { key, closer_peers, .. } => {
                            &&& forall|i: int, j: int|
                                0 <= i < j < closer_peers@.len() ==> dist_lt(
                                    node_key_spec(#[trigger] closer_peers@[i]),
                                    node_key_spec(#[trigger] closer_peers@[j]),
                                    key@,
                                )
                            &&& forall|i: int, j: int|
                                0 <= i < j < closer_peers@.len() ==> closer_peers@[i]
                                    != closer_peers@[j]
                        },
                        KademliaOut::Discovered { .. } => false,
                    },
                },
                None => true,
            },
            now >= old(self).spec_next_refresh() ==> final(self).queries().len() <= old(
                self,
            ).queries().len() + old(self).pending_queries().len() + old(self).providing().len(),
            now >= old(self).spec_next_refresh() && final(self).queries().len() == old(
                self,
            ).queries().len() + old(self).pending_queries().len() + old(self).providing().len()
                ==> forall|ki: int|
                0 <= ki < old(self).providing().len() ==> announce_active(
                    final(self).queries(),
                    (#[trigger] old(self).providing()[ki])@,
                ),
            r is None ==> final(self).queued().len() == 0 && final(self).remote().len() == 0,
            r is None ==> forall|l: int|
                0 <= l < final(self).queries().len() ==> query_quiet(
                    (#[trigger] final(self).queries()[l]).1,
                ),
    {
        // fold reported providers into the table, never this node itself
        let ghost rp0 = self.add_provider@;
        while !self.add_provider.is_empty()
            invariant
                self.wf(),
                self.spec_my_id() == old(self).spec_my_id(),
                self.providing() == old(self).providing(),
                self.pending_queries() == old(self).pending_queries(),
                self.queued() == old(self).queued(),
                self.remote() == old(self).remote(),
                self.connected() == old(self).connected(),
                self.queries() == old(self).queries(),
                self.parked_rpcs() == old(self).parked_rpcs(),
                self.spec_next_refresh() == old(self).spec_next_refresh(),
                rp0 == old(self).reported_providers(),
                self.add_provider@.len() <= rp0.len(),
                self.add_provider@ == rp0.skip(rp0.len() - self.add_provider@.len()),
                forall|x: int|
                    0 <= x < rp0.len() - self.add_provider@.len() && (#[trigger] rp0[x]).1 != old(self).spec_my_id() ==> prov_has(self.providers(), rp0[x].0@) && prov_of(
                        self.providers(),
                        rp0[x].0@,
                    ).contains(rp0[x].1),
            decreases self.add_provider@.len(),
        {
            let ghost before = self.add_provider@;
            let (key, provider) = self.add_provider.remove(0);
            proof {
                let k = rp0.len() - before.len();
                assert(before[0] == rp0[k]);
                assert(self.add_provider@ =~= rp0.skip(k + 1));
            }
            if provider.id != self.my_id.id {
                let ghost pre_prov = self.values_providers@;
                let ghost pre_keys = self.providing_keys@;
                self.ensure_provider(&key, &provider);
                proof {
                    assert forall|k2: Seq<u8>|
                        keys_has(self.providing_keys@, k2) implies prov_has(
                        self.values_providers@,
                        k2,
                    ) && prov_of(self.values_providers@, k2).contains(self.my_id) by {
                        assert(keys_has(pre_keys, k2));
                        assert(prov_has(pre_prov, k2) && prov_of(pre_prov, k2).contains(self.my_id));
                    }
                }
            } else {
                proof {
                    assert(provider == old(self).spec_my_id());
                }
            }
        }
        // when the refresh deadline passes, schedule a re-announcement of
        // every provided key; the lookups start just below
        if now >= self.next_refresh_ms {
            self.next_refresh_ms = if now > u64::MAX - PROVIDER_REFRESH_MS {
                u64::MAX
            } else {
                now + PROVIDER_REFRESH_MS
            };
            let mut keys: Vec<KadKey> = Vec::new();
            let mut i: usize = 0;
            while i < self.providing_keys.len()
                invariant
                    0 <= i <= self.providing_keys@.len(),
                    self.wf(),
                    keys@.len() == i,
                    forall|l: int|
                        0 <= l < i ==> (#[trigger] keys@[l])@ == self.providing_keys@[l]@
                            && keys@[l]@.len() == KAD_KEY_LEN,
                decreases self.providing_keys@.len() - i,
            {
                let k = self.providing_keys[i].duplicate();
                keys.push(k);
                i += 1;
            }
            let ghost mid2 = *self;
            let mut i2: usize = 0;
            while i2 < keys.len()
                invariant
                    0 <= i2 <= keys@.len(),
                    self.wf(),
                    self.spec_my_id() == old(self).spec_my_id(),
                    self.providing() == old(self).providing(),
                    self.providers() == mid2.providers(),
                    self.providers_consistent(),
                    self.reported_providers().len() == 0,
                    self.queued() == old(self).queued(),
                    self.remote() == old(self).remote(),
                    self.connected() == old(self).connected(),
                    self.queries() == mid2.queries(),
                    self.parked_rpcs() == old(self).parked_rpcs(),
                    self.spec_next_refresh() == mid2.spec_next_refresh(),
                    forall|l: int|
                        0 <= l < keys@.len() ==> (#[trigger] keys@[l])@.len() == KAD_KEY_LEN,
                    forall|l: int|
                        0 <= l < keys@.len() ==> (#[trigger] keys@[l])@ == self.providing()[l]@,
                    keys@.len() == self.providing().len(),
                    self.pending_queries().len() == mid2.pending_queries().len() + i2,
                    forall|ki: int|
                        0 <= ki < i2 ==> announce_pending(
                            self.pending_queries(),
                            (#[trigger] keys@[ki])@,
                        ),
                    forall|x: int|
                        0 <= x < old(self).reported_providers().len() && (#[trigger] old(
                            self,
                        ).reported_providers()[x]).1 != old(self).spec_my_id() ==> prov_has(
                            self.providers(),
                            old(self).reported_providers()[x].0@,
                        ) && prov_of(
                            self.providers(),
                            old(self).reported_providers()[x].0@,
                        ).contains(old(self).reported_providers()[x].1),
                decreases keys@.len() - i2,
            {
                let target = QueryTarget::FindPeer(keys[i2].duplicate());
                let announced = QueryPurpose::AddProvider(keys[i2].duplicate());
                let ghost ppre = self.pending_queries();
                self.start_query(target, announced);
                proof {
                    let pl = self.pending_queries().len() - 1;
                    assert(self.pending_queries()[pl].1 is FindPeer && target_hash(
                        self.pending_queries()[pl].1,
                    ) == keys@[i2 as int]@);
                    assert(announce_pending(self.pending_queries(), keys@[i2 as int]@));
                    assert forall|ki: int| 0 <= ki < i2 + 1 implies announce_pending(
                        self.pending_queries(),
                        (#[trigger] keys@[ki])@,
                    ) by {
                        if ki < i2 {
                            let pi = choose|pi: int|
                                0 <= pi < ppre.len() && (#[trigger] ppre[pi]).1 is FindPeer
                                    && target_hash(ppre[pi].1) == keys@[ki]@ && match ppre[pi].2 {
                                    QueryPurpose::AddProvider(k2) => k2@ == keys@[ki]@,
                                    _ => false,
                                };
                            assert(self.pending_queries()[pi] == ppre[pi]);
                        }
                    }
                }
                i2 += 1;
            }
            proof {
                assert forall|ki: int|
                    0 <= ki < old(self).providing().len() implies announce_pending(
                    self.queries_to_start@,
                    (#[trigger] old(self).providing()[ki])@,
                ) by {
                    assert(announce_pending(self.pending_queries(), (keys@[ki])@));
                    assert((keys@[ki])@ == (old(self).providing()[ki])@);
                }
                assert(self.queries_to_start@.len() == old(self).pending_queries().len() + old(
                    self,
                ).providing().len());
            }
        }
        let ghost p0 = self.queries_to_start@;
        let ghost a0 = self.active_queries@;
        proof {
            assert(a0 == old(self).queries());
        }
        // start the scheduled lookups, seeded from the routing table
        while !self.queries_to_start.is_empty()
            invariant
                self.wf(),
                self.spec_my_id() == old(self).spec_my_id(),
                self.providing() == old(self).providing(),
                self.providers_consistent(),
                self.reported_providers().len() == 0,
                self.queued() == old(self).queued(),
                self.remote() == old(self).remote(),
                self.connected() == old(self).connected(),
                self.parked_rpcs() == old(self).parked_rpcs(),
                self.active_queries@.len() + self.queries_to_start@.len() == a0.len() + p0.len(),
                forall|k2: Seq<u8>|
                    #![trigger announce_pending(p0, k2)]
                    announce_pending(p0, k2) ==> announce_pending(self.queries_to_start@, k2)
                        || announce_active(self.active_queries@, k2),
                now < old(self).spec_next_refresh() ==> self.spec_next_refresh() == old(
                    self,
                ).spec_next_refresh(),
                now >= old(self).spec_next_refresh() ==> self.spec_next_refresh() == (if now
                    > u64::MAX - PROVIDER_REFRESH_MS {
                    u64::MAX
                } else {
                    (now + PROVIDER_REFRESH_MS) as u64
                }),
                forall|x: int|
                    0 <= x < old(self).reported_providers().len() && (#[trigger] old(self).reported_providers()[x]).1 != old(self).spec_my_id() ==> prov_has(
                        self.providers(),
                        old(self).reported_providers()[x].0@,
                    ) && prov_of(self.providers(), old(self).reported_providers()[x].0@).contains(
                        old(self).reported_providers()[x].1,
                    ),
            decreases self.queries_to_start@.len(),
        {
            let ghost ppop = self.queries_to_start@;
            let ghost apre = self.active_queries@;
            let (qid, target, purpose) = self.queries_to_start.remove(0);
            proof {
                assert(target.wf());
                assert(self.queries_to_start@ =~= ppop.skip(1));
            }
            let mut seed = self.kbuckets.find_closest(target.as_hash());
            seed.truncate(NUM_RESULTS);
            proof {
                assert forall|x: int, y: int| 0 <= x < y < seed@.len() implies dist_lt(
                    node_key_spec(#[trigger] seed@[x]),
                    node_key_spec(#[trigger] seed@[y]),
                    target_hash(target),
                ) by {}
            }
            let qs = QueryState::new(target, ALPHA, NUM_RESULTS, RPC_TIMEOUT_MS, &seed);
            self.active_queries.push((qid, qs, purpose, Vec::new()));
            proof {
                assert forall|k2: Seq<u8>|
                    #![trigger announce_pending(p0, k2)]
                    announce_pending(p0, k2) implies announce_pending(self.queries_to_start@, k2)
                    || announce_active(self.active_queries@, k2) by {
                    if announce_pending(ppop, k2) {
                        let pi = choose|pi: int|
                            0 <= pi < ppop.len() && (#[trigger] ppop[pi]).1 is FindPeer
                                && target_hash(ppop[pi].1) == k2 && match ppop[pi].2 {
                                QueryPurpose::AddProvider(kk) => kk@ == k2,
                                _ => false,
                            };
                        if pi == 0 {
                            let ql = self.active_queries@.len() - 1;
                            assert(self.active_queries@[ql].1.spec_target() == ppop[0].1);
                            assert(self.active_queries@[ql].2 == ppop[0].2);
                            assert(announce_active(self.active_queries@, k2));
                        } else {
                            assert(self.queries_to_start@[pi - 1] == ppop[pi]);
                            assert(announce_pending(self.queries_to_start@, k2));
                        }
                    } else {
                        assert(announce_active(apre, k2));
                        let qi2 = choose|qi2: int|
                            0 <= qi2 < apre.len() && (#[trigger] apre[qi2]).1.spec_target()
                                is FindPeer && target_hash(apre[qi2].1.spec_target()) == k2
                                && match apre[qi2].2 {
                                QueryPurpose::AddProvider(kk) => kk@ == k2,
                                _ => false,
                            };
                        assert(self.active_queries@[qi2] == apre[qi2]);
                        assert(announce_active(self.active_queries@, k2));
                    }
                }
            }
        }
        // answer one request from a peer
        if self.remote_requests.len() > 0 {
            let (peer, req_id, target) = self.remote_requests.remove(0);
            proof {
                assert(self.remote_requests@ =~= old(self).remote().drop_first());
            }
            let reply = self.build_result(&target, req_id, local_peer, external_addresses);
            return Some(NetworkAction::SendEvent { peer_id: peer, event: reply });
        }
        // hand out one queued action
        if self.queued_events.len() > 0 {
            let a = self.queued_events.remove(0);
            proof {
                assert(self.queued_events@ =~= old(self).queued().drop_first());
            }
            return Some(a);
        }
        // drive the active lookups
        let ghost kb0 = self.kbuckets;
        let mut qi: usize = 0;
        while qi < self.active_queries.len()
            invariant
                0 <= qi <= self.active_queries@.len(),
                self.wf(),
                self.kbuckets == kb0,
                self.spec_my_id() == old(self).spec_my_id(),
                self.providing() == old(self).providing(),
                self.providers_consistent(),
                self.reported_providers().len() == 0,
                self.remote_requests@.len() == 0,
                old(self).remote().len() == 0,
                old(self).queued().len() == 0,
                self.queries_to_start@.len() == 0,
                self.connected() == old(self).connected(),
                now < old(self).spec_next_refresh() ==> self.spec_next_refresh() == old(
                    self,
                ).spec_next_refresh(),
                now >= old(self).spec_next_refresh() ==> self.spec_next_refresh() == (if now
                    > u64::MAX - PROVIDER_REFRESH_MS {
                    u64::MAX
                } else {
                    (now + PROVIDER_REFRESH_MS) as u64
                }),
                forall|x: int|
                    0 <= x < old(self).reported_providers().len() && (#[trigger] old(self).reported_providers()[x]).1 != old(self).spec_my_id() ==> prov_has(
                        self.providers(),
                        old(self).reported_providers()[x].0@,
                    ) && prov_of(self.providers(), old(self).reported_providers()[x].0@).contains(
                        old(self).reported_providers()[x].1,
                    ),
                old(self).queued().len() == 0 ==> forall|ql: int|
                    0 <= ql < self.queued_events@.len() ==> action_announces(
                        #[trigger] self.queued_events@[ql],
                        self.spec_my_id(),
                        self.kbuckets,
                        local_peer@,
                        external_addresses@,
                    ),
                forall|l: int|
                    0 <= l < qi ==> query_quiet((#[trigger] self.active_queries@[l]).1),
                self.active_queries@.len() <= a0.len() + p0.len(),
                a0 == old(self).queries(),
                now >= old(self).spec_next_refresh() ==> p0.len() == old(
                    self,
                ).pending_queries().len() + old(self).providing().len(),
                now >= old(self).spec_next_refresh() ==> forall|ki: int|
                    0 <= ki < old(self).providing().len() ==> announce_pending(
                        p0,
                        (#[trigger] old(self).providing()[ki])@,
                    ),
                forall|k2: Seq<u8>|
                    #![trigger announce_pending(p0, k2)]
                    announce_pending(p0, k2) && self.active_queries@.len() == a0.len() + p0.len()
                        ==> announce_active(self.active_queries@, k2),
            decreases
                    queries_measure(self.active_queries@),
                    self.active_queries@.len(),
                    self.active_queries@.len() - qi,
        {
            let ghost aq_iter = self.active_queries@;
            let step = {
                let entry = &mut self.active_queries[qi];
                entry.1.poll(now)
            };
            proof {
                assert(self.active_queries@ =~= aq_iter.update(
                    qi as int,
                    self.active_queries@[qi as int],
                ));
                lemma_queries_measure_update(
                    aq_iter,
                    qi as int,
                    self.active_queries@[qi as int],
                );
                lemma_queries_measure_nonneg(self.active_queries@);
                assert forall|k2: Seq<u8>|
                    #![trigger announce_pending(p0, k2)]
                    announce_pending(p0, k2) && self.active_queries@.len() == a0.len()
                        + p0.len() implies announce_active(self.active_queries@, k2) by {
                    assert(announce_active(aq_iter, k2));
                    let qi2 = choose|qi2: int|
                        0 <= qi2 < aq_iter.len() && (#[trigger] aq_iter[qi2]).1.spec_target()
                            is FindPeer && target_hash(aq_iter[qi2].1.spec_target()) == k2
                            && match aq_iter[qi2].2 {
                            QueryPurpose::AddProvider(kk) => kk@ == k2,
                            _ => false,
                        };
                    assert(self.active_queries@[qi2].1.spec_target() == aq_iter[
                        qi2
                    ].1.spec_target());
                    assert(self.active_queries@[qi2].2 == aq_iter[qi2].2);
                    assert(announce_active(self.active_queries@, k2));
                }
            }
            match step {
                QueryStep::SendRpc { node_id } => {
                    let qid = self.active_queries[qi].0;
                    let rpc = Kademlia::to_rpc_request(self.active_queries[qi].1.target(), qid);
                    let target_peer = match self.kbuckets.get(&node_id) {
                        Some(info) => info.peer_id(),
                        None => None,
                    };
                    match target_peer {
                        Some(peer) => {
                            if self.is_connected_peer(&peer) {
                                proof {
                                    assert(is_rpc_request_for(
                                        rpc,
                                        self.queries()[qi as int].1.spec_target(),
                                        self.queries()[qi as int].0,
                                    ));
                                    let e = choose|e: int|
                                        0 <= e < self.active_queries@[qi as int].1.entries().len()
                                            && (#[trigger] self.active_queries@[qi
                                            as int].1.entries()[e]).0 == node_id
                                            && self.active_queries@[qi as int].1.entries()[
                                            e
                                        ].1 is Waiting;
                                    assert(peer_view(
                                        self.table().spec_info(
                                            self.queries()[qi as int].1.entries()[e].0,
                                        ),
                                    ) == Some(peer@));
                                }
                                return Some(
                                    NetworkAction::SendEvent { peer_id: peer, event: rpc },
                                );
                            } else {
                                proof {
                                    assert(forall|ci: int|
                                        0 <= ci < self.connected().len() ==> (
                                        #[trigger] self.connected()[ci])@ != peer@);
                                }
                                let ghost conn_pre = self.connected();
                                self.pending_rpcs.push((node_id, rpc));
                                proof {
                                    assert(is_rpc_request_for(
                                        self.parked_rpcs().last().1,
                                        self.queries()[qi as int].1.spec_target(),
                                        self.queries()[qi as int].0,
                                    ));
                                    assert(self.connected() == conn_pre);
                                    assert(forall|ci: int|
                                        0 <= ci < self.connected().len() ==> (
                                        #[trigger] self.connected()[ci])@ != peer@);
                                    assert(self.parked_rpcs().last().0 == node_id);
                                    assert(peer_view(self.table().spec_info(node_id)) == Some(
                                        peer@,
                                    ));
                                }
                                return Some(NetworkAction::DialPeer { peer_id: peer });
                            }
                        },
                        None => {
                            // the node cannot be contacted at all; recording
                            // the failures may let an earlier lookup dispatch
                            // again, so the sweep starts over
                            let ghost aq_sent = self.active_queries@;
                            self.fail_node_in_queries(&node_id);
                            proof {
                                lemma_queries_measure_mono(aq_sent, self.active_queries@);
                                lemma_queries_measure_nonneg(self.active_queries@);
                                assert(queries_measure(self.active_queries@) < queries_measure(
                                    aq_iter,
                                ));
                                assert forall|k2: Seq<u8>|
                                    #![trigger announce_pending(p0, k2)]
                                    announce_pending(p0, k2) && self.active_queries@.len()
                                        == a0.len() + p0.len() implies announce_active(
                                    self.active_queries@,
                                    k2,
                                ) by {
                                    assert(announce_active(aq_sent, k2));
                                    let qi2 = choose|qi2: int|
                                        0 <= qi2 < aq_sent.len() && (
                                        #[trigger] aq_sent[qi2]).1.spec_target() is FindPeer
                                            && target_hash(aq_sent[qi2].1.spec_target()) == k2
                                            && match aq_sent[qi2].2 {
                                            QueryPurpose::AddProvider(kk) => kk@ == k2,
                                            _ => false,
                                        };
                                    assert(self.active_queries@[qi2].1.spec_target() == aq_sent[
                                        qi2
                                    ].1.spec_target());
                                    assert(self.active_queries@[qi2].2 == aq_sent[qi2].2);
                                    assert(announce_active(self.active_queries@, k2));
                                }
                            }
                            qi = 0;
                        },
                    }
                },
                QueryStep::CancelRpc { node_id } => {
                    let ghost aq = self.active_queries@;
                    let ghost qe3 = self.queued_events@;
                    let mut kept: Vec<(PublicKey, KademliaHandlerIn)> = Vec::new();
                    while self.pending_rpcs.len() > 0
                        invariant
                            self.wf(),
                            self.spec_my_id() == old(self).spec_my_id(),
                            self.kbuckets == kb0,
                            self.active_queries@ == aq,
                            self.queued_events@ == qe3,
                            self.queries_to_start@.len() == 0,
                            self.connected() == old(self).connected(),
                            self.remote_requests@.len() == 0,
                            old(self).remote().len() == 0,
                            old(self).queued().len() == 0,
                            self.providing() == old(self).providing(),
                            self.providers_consistent(),
                            self.reported_providers().len() == 0,
                            self.connected() == old(self).connected(),
                            now < old(self).spec_next_refresh() ==> self.spec_next_refresh()
                                == old(self).spec_next_refresh(),
                            now >= old(self).spec_next_refresh() ==> self.spec_next_refresh() == (
                            if now > u64::MAX - PROVIDER_REFRESH_MS {
                                u64::MAX
                            } else {
                                (now + PROVIDER_REFRESH_MS) as u64
                            }),
                            forall|x: int|
                                0 <= x < old(self).reported_providers().len() && (#[trigger] old(
                                    self,
                                ).reported_providers()[x]).1 != old(self).spec_my_id()
                                    ==> prov_has(
                                    self.providers(),
                                    old(self).reported_providers()[x].0@,
                                ) && prov_of(
                                    self.providers(),
                                    old(self).reported_providers()[x].0@,
                                ).contains(old(self).reported_providers()[x].1),
                            old(self).queued().len() == 0 ==> forall|ql: int|
                                0 <= ql < self.queued_events@.len() ==> action_announces(
                                    #[trigger] self.queued_events@[ql],
                                    self.spec_my_id(),
                                    self.kbuckets,
                                    local_peer@,
                                    external_addresses@,
                                ),
                        decreases self.pending_rpcs@.len(),
                    {
                        let (n, rpc) = self.pending_rpcs.remove(0);
                        if n.id != node_id.id {
                            kept.push((n, rpc));
                        }
                    }
                    self.pending_rpcs = kept;
                    proof {
                        lemma_queries_measure_nonneg(self.active_queries@);
                        assert(queries_measure(self.active_queries@) < queries_measure(aq_iter));
                    }
                },
                QueryStep::Finished => {
                    proof {
                        lemma_queries_measure_remove(self.active_queries@, qi as int);
                        crate::query::lemma_counts_nonneg(
                            self.active_queries@[qi as int].1.entries(),
                        );
                    }
                    let (qid, query, purpose, providers) = self.active_queries.remove(qi);
                    proof {
                        assert(queries_measure(self.active_queries@) <= queries_measure(aq_iter));
                        assert(self.active_queries@.len() < aq_iter.len());
                        lemma_queries_measure_nonneg(self.active_queries@);
                    }
                    match purpose {
                        QueryPurpose::Initialization => {},
                        QueryPurpose::UserRequest => {
                            let closer_peers = query.into_closest_peers();
                            let event = match query.target() {
                                QueryTarget::FindPeer(key) => KademliaOut::FindNodeResult {
                                    key: key.duplicate(),
                                    closer_peers,
                                },
                                QueryTarget::GetProviders(key) => KademliaOut::GetProvidersResult {
                                    key: key.duplicate(),
                                    closer_peers,
                                    provider_peers: providers,
                                },
                            };
                            return Some(NetworkAction::GenerateEvent(event));
                        },
                        QueryPurpose::AddProvider(key) => {
                            let ghost aq2 = self.active_queries@;
                            let closest = query.into_closest_peers();
                            let mut c: usize = 0;
                            while c < closest.len()
                                invariant
                                    0 <= c <= closest@.len(),
                                    self.wf(),
                                    self.kbuckets == kb0,
                                    self.spec_my_id() == old(self).spec_my_id(),
                                    self.providing() == old(self).providing(),
                                    self.providers_consistent(),
                                    self.reported_providers().len() == 0,
                                    self.remote_requests@.len() == 0,
                                    key@.len() == KAD_KEY_LEN,
                                    self.active_queries@ == aq2,
                                    qi <= aq2.len(),
                                    self.queries_to_start@.len() == 0,
                                    self.connected() == old(self).connected(),
                                    now < old(self).spec_next_refresh() ==> self.spec_next_refresh() == old(
                                        self,
                                    ).spec_next_refresh(),
                                    now >= old(self).spec_next_refresh() ==> self.spec_next_refresh() == (
                                    if now > u64::MAX - PROVIDER_REFRESH_MS {
                                        u64::MAX
                                    } else {
                                        (now + PROVIDER_REFRESH_MS) as u64
                                    }),
                                    forall|x: int|
                                        0 <= x < old(self).reported_providers().len() && (
                                        #[trigger] old(self).reported_providers()[x]).1 != old(self).spec_my_id() ==> prov_has(
                                            self.providers(),
                                            old(self).reported_providers()[x].0@,
                                        ) && prov_of(
                                            self.providers(),
                                            old(self).reported_providers()[x].0@,
                                        ).contains(old(self).reported_providers()[x].1),
                                    old(self).queued().len() == 0 ==> forall|ql: int|
                                        0 <= ql < self.queued_events@.len() ==> action_announces(
                                            #[trigger] self.queued_events@[ql],
                                            self.spec_my_id(),
                                            self.kbuckets,
                                            local_peer@,
                                            external_addresses@,
                                        ),
                                decreases closest@.len() - c,
                            {
                                match self.kbuckets.get(&closest[c]) {
                                    Some(info) => {
                                        match info.peer_id() {
                                            Some(peer) => {
                                                let me = self.my_id;
                                                let me_peer = self.build_kad_peer(
                                                    me,
                                                    local_peer,
                                                    external_addresses,
                                                );
                                                self.queued_events.push(
                                                    NetworkAction::SendEvent {
                                                        peer_id: peer,
                                                        event: KademliaHandlerIn::AddProvider {
                                                            key: key.duplicate(),
                                                            provider_peer: me_peer,
                                                        },
                                                    },
                                                );
                                            },
                                            None => {},
                                        }
                                    },
                                    None => {},
                                }
                                c += 1;
                            }
                        },
                    }
                },
                QueryStep::NotReady => {
                    proof {
                        assert(query_quiet(self.active_queries@[qi as int].1));
                        assert(queries_measure(self.active_queries@) <= queries_measure(aq_iter));
                        assert(self.active_queries@.len() == aq_iter.len());
                    }
                    qi += 1;
                },
            }
        }
        // a lookup completion may have queued follow-up actions
        if self.queued_events.len() > 0 {
            return Some(self.queued_events.remove(0));
        }
        None
    }

}

} // verus!
