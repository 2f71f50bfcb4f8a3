//! The routing table: nodes keyed by XOR distance to this node, held in
//! buckets of bounded depth.
//!
//! Entries are kept in least-recently-seen-first order; each node falls
//! into the bucket named by the highest bit in which its key differs from
//! this node's key, and a bucket holds at most `BUCKET_SIZE` nodes; a
//! newcomer to a full bucket waits until the bucket's oldest member is
//! probed and found gone.

use crate::addresses::{any_connected, has_addr, Addresses, Multiaddr, PeerId};
use crate::crypto::PublicKey;
use crate::kad_key::{
    bucket_of, bucket_index, dist_le, dist_lt, key_headered, lemma_bucket_range, node_key_byte,
    lemma_first_diff_is_diff, lemma_first_diff_range, lemma_node_key_injective, lemma_xcmp_eq, lemma_xcmp_flip,
    lemma_xcmp_trans, node_key, node_key_spec, xcmp_from, xor_distance_cmp, KadKey, KAD_KEY_LEN,
    NUM_BUCKETS,
};
use vstd::prelude::*;

verus! {

/// Depth of one bucket.
pub const BUCKET_SIZE: usize = 20;

/// After this many milliseconds without activity a bucket counts as stale.
pub const BUCKET_EXPIRATION_MS: u64 = 300_000;

/// What is known about one node: its transport identity, if any, and its
/// addresses.
#[derive(Clone, Debug)]
pub struct NodeInfo {
    pub peer_id: Option<PeerId>,
    pub addresses: Addresses,
}

/// The transport identity a node record holds, as plain bytes.
pub open spec fn peer_view(info: NodeInfo) -> Option<Seq<u8>> {
    match info.peer_id {
        Some(p) => Some(p@),
        None => None,
    }
}

impl Default for NodeInfo {
    /// A record with nothing known yet.
    fn default() -> (r: NodeInfo)
        ensures
            r.peer_id is None,
            r.addresses@.len() == 0,
            r.wf(),
    {
        NodeInfo { peer_id: None, addresses: Addresses::new() }
    }
}

impl NodeInfo {
    /// The address list is well formed.
    pub open spec fn wf(&self) -> bool {
        self.addresses.wf()
    }

    /// A record with nothing known yet.
    pub fn new() -> (r: NodeInfo)
        ensures
            r.peer_id is None,
            r.addresses@.len() == 0,
            r.wf(),
    {
        NodeInfo { peer_id: None, addresses: Addresses::new() }
    }

    /// Whether a transport identity is known.
    pub fn has_peer_id(&self) -> (r: bool)
        ensures
            r == (peer_view(*self) is Some),
    {
        self.peer_id.is_some()
    }

    /// The transport identity, if known.
    pub fn peer_id(&self) -> (r: Option<PeerId>)
        ensures
            match r {
                Some(p) => peer_view(*self) == Some(p@),
                None => peer_view(*self) is None,
            },
    {
        match &self.peer_id {
            Some(p) => Some(p.duplicate()),
            None => None,
        }
    }

    /// Whether any address is known.
    pub fn has_addresses(&self) -> (r: bool)
        ensures
            r == (self.addresses@.len() > 0),
    {
        self.addresses.size() > 0
    }

    /// Copies the record.
    pub fn duplicate(&self) -> (r: NodeInfo)
        ensures
            peer_view(r) == peer_view(*self),
            r.addresses@ == self.addresses@,
    {
        let peer_id = match &self.peer_id {
            Some(p) => Some(p.duplicate()),
            None => None,
        };
        NodeInfo { peer_id, addresses: self.addresses.duplicate() }
    }
}

/// Outcome of recording a node as seen: either the table took it, or the
/// bucket is full of live nodes and the caller should probe the returned
/// least-recently seen one.
#[derive(Clone, Copy, Debug, PartialEq, Eq, Structural)]
pub enum Update {
    Added,
    Pending(PublicKey),
}

/// Whether some entry carries the id.
pub open spec fn has_id(s: Seq<(PublicKey, NodeInfo, bool)>, n: PublicKey) -> bool {
    exists|i: int| 0 <= i < s.len() && s[i].0 == n
}

/// The position of the entry carrying the id.
pub open spec fn idx_of(s: Seq<(PublicKey, NodeInfo, bool)>, n: PublicKey) -> int {
    choose|i: int| 0 <= i < s.len() && s[i].0 == n
}

/// Every id appears at most once.
pub open spec fn unique_ids(s: Seq<(PublicKey, NodeInfo, bool)>) -> bool {
    forall|i: int, j: int| 0 <= i < j < s.len() ==> s[i].0 != s[j].0
}

/// With unique ids, the entry at any position carrying `n` is the entry
/// looked up for `n`.
pub proof fn lemma_lookup(s: Seq<(PublicKey, NodeInfo, bool)>, n: PublicKey, i: int)
    requires
        unique_ids(s),
        0 <= i < s.len(),
        s[i].0 == n,
    ensures
        idx_of(s, n) == i,
        has_id(s, n),
{
    assert(has_id(s, n));
    let j = idx_of(s, n);
    assert(0 <= j < s.len() && s[j].0 == n);
    if i < j {
        assert(s[i].0 != s[j].0);
    } else if j < i {
        assert(s[j].0 != s[i].0);
    }
}

/// How many entries fall into bucket `b` of a table owned by `my`.
pub open spec fn count_bucket(s: Seq<(PublicKey, NodeInfo, bool)>, my: PublicKey, b: int) -> int
    decreases s.len(),
{
    if s.len() == 0 {
        0
    } else {
        count_bucket(s.drop_last(), my, b) + if bucket_of(
            node_key_spec(s.last().0),
            node_key_spec(my),
        ) == b {
            1int
        } else {
            0int
        }
    }
}

/// The least-recently seen stored member of bucket `b` of a table owned
/// by `my`: the first listed entry falling into that bucket.  With no
/// such entry the owner's own id stands in; callers guard on the bucket
/// being populated.
pub open spec fn bucket_oldest(s: Seq<(PublicKey, NodeInfo, bool)>, my: PublicKey, b: int) -> PublicKey
    decreases s.len(),
{
    if s.len() == 0 {
        my
    } else if bucket_of(node_key_spec(s[0].0), node_key_spec(my)) == b {
        s[0].0
    } else {
        bucket_oldest(s.drop_first(), my, b)
    }
}

/// The first index falling into bucket `b` names the bucket's oldest
/// member.
pub proof fn lemma_bucket_oldest_first(
    s: Seq<(PublicKey, NodeInfo, bool)>,
    my: PublicKey,
    b: int,
    j: int,
)
    requires
        0 <= j < s.len(),
        bucket_of(node_key_spec(s[j].0), node_key_spec(my)) == b,
        forall|l: int|
            0 <= l < j ==> bucket_of(node_key_spec((#[trigger] s[l]).0), node_key_spec(my)) != b,
    ensures
        bucket_oldest(s, my, b) == s[j].0,
    decreases j,
{
    if j > 0 {
        lemma_bucket_oldest_first(s.drop_first(), my, b, j - 1);
    }
}

/// Bucket counts add over concatenation.
pub proof fn lemma_count_bucket_concat(
    s1: Seq<(PublicKey, NodeInfo, bool)>,
    s2: Seq<(PublicKey, NodeInfo, bool)>,
    my: PublicKey,
    b: int,
)
    ensures
        count_bucket(s1 + s2, my, b) == count_bucket(s1, my, b) + count_bucket(s2, my, b),
    decreases s2.len(),
{
    if s2.len() == 0 {
        assert(s1 + s2 =~= s1);
    } else {
        assert((s1 + s2).drop_last() =~= s1 + s2.drop_last());
        assert((s1 + s2).last() == s2.last());
        lemma_count_bucket_concat(s1, s2.drop_last(), my, b);
    }
}

/// Bucket counts are non-negative, and a member of the bucket makes the
/// count positive.
pub proof fn lemma_count_bucket_nonneg(
    s: Seq<(PublicKey, NodeInfo, bool)>,
    my: PublicKey,
    b: int,
)
    ensures
        0 <= count_bucket(s, my, b) <= s.len(),
    decreases s.len(),
{
    if s.len() > 0 {
        lemma_count_bucket_nonneg(s.drop_last(), my, b);
    }
}

/// Removing one entry lowers its own bucket's count by one and keeps the
/// others.
pub proof fn lemma_count_bucket_remove(
    s: Seq<(PublicKey, NodeInfo, bool)>,
    my: PublicKey,
    b: int,
    i: int,
)
    requires
        0 <= i < s.len(),
    ensures
        count_bucket(s.remove(i), my, b) == count_bucket(s, my, b) - (if bucket_of(
            node_key_spec(s[i].0),
            node_key_spec(my),
        ) == b {
            1int
        } else {
            0int
        }),
{
    let front = s.take(i);
    let mid = seq![s[i]];
    let back = s.skip(i + 1);
    assert(s =~= front + mid + back);
    assert(s.remove(i) =~= front + back);
    lemma_count_bucket_concat(front + mid, back, my, b);
    lemma_count_bucket_concat(front, mid, my, b);
    lemma_count_bucket_concat(front, back, my, b);
    assert(mid.drop_last() =~= Seq::<(PublicKey, NodeInfo, bool)>::empty());
    assert(count_bucket(Seq::<(PublicKey, NodeInfo, bool)>::empty(), my, b) == 0);
    assert(mid.last() == s[i]);
    assert(count_bucket(mid, my, b) == (if bucket_of(node_key_spec(s[i].0), node_key_spec(my))
        == b {
        1int
    } else {
        0int
    }));
    assert(count_bucket(s, my, b) == count_bucket(front + mid + back, my, b));
}

/// Sequences with the same ids at every position agree on membership,
/// bucket counts and uniqueness.
pub proof fn lemma_same_ids(
    s1: Seq<(PublicKey, NodeInfo, bool)>,
    s2: Seq<(PublicKey, NodeInfo, bool)>,
    my: PublicKey,
)
    requires
        s1.len() == s2.len(),
        forall|j: int| 0 <= j < s1.len() ==> (#[trigger] s1[j]).0 == s2[j].0,
    ensures
        forall|m: PublicKey| has_id(s1, m) == has_id(s2, m),
        forall|b: int| count_bucket(s1, my, b) == count_bucket(s2, my, b),
        unique_ids(s1) == unique_ids(s2),
    decreases s1.len(),
{
    if s1.len() > 0 {
        assert(forall|j: int|
            0 <= j < s1.len() - 1 ==> (#[trigger] s1.drop_last()[j]).0 == s2.drop_last()[j].0);
        lemma_same_ids(s1.drop_last(), s2.drop_last(), my);
        assert(s1.last().0 == s2.last().0);
    }
    assert forall|b: int| count_bucket(s1, my, b) == count_bucket(s2, my, b) by {
        if s1.len() > 0 {
            assert(count_bucket(s1.drop_last(), my, b) == count_bucket(s2.drop_last(), my, b));
            assert(s1.last().0 == s2.last().0);
        }
    }
    if unique_ids(s1) {
        assert forall|i: int, j: int| 0 <= i < j < s2.len() implies s2[i].0 != s2[j].0 by {
            assert(s1[i].0 == s2[i].0);
            assert(s1[j].0 == s2[j].0);
            assert(s1[i].0 != s1[j].0);
        }
    }
    if unique_ids(s2) {
        assert forall|i: int, j: int| 0 <= i < j < s1.len() implies s1[i].0 != s1[j].0 by {
            assert(s1[i].0 == s2[i].0);
            assert(s1[j].0 == s2[j].0);
            assert(s2[i].0 != s2[j].0);
        }
    }
    assert forall|m: PublicKey| has_id(s1, m) == has_id(s2, m) by {
        if has_id(s1, m) {
            let k = choose|k: int| 0 <= k < s1.len() && s1[k].0 == m;
            assert(s2[k].0 == m);
        }
        if has_id(s2, m) {
            let k = choose|k: int| 0 <= k < s2.len() && s2[k].0 == m;
            assert(s1[k].0 == m);
        }
    }
}

/// Replacing the record at one position, keeping its id, preserves the
/// table's shape: membership, counts, uniqueness and every other entry.
pub proof fn lemma_entry_update(
    pre: Seq<(PublicKey, NodeInfo, bool)>,
    post: Seq<(PublicKey, NodeInfo, bool)>,
    i: int,
    my: PublicKey,
)
    requires
        unique_ids(pre),
        0 <= i < pre.len(),
        post.len() == pre.len(),
        forall|j: int| 0 <= j < pre.len() && j != i ==> #[trigger] post[j] == pre[j],
        post[i].0 == pre[i].0,
    ensures
        unique_ids(post),
        forall|m: PublicKey| has_id(post, m) == has_id(pre, m),
        forall|b: int| count_bucket(post, my, b) == count_bucket(pre, my, b),
        idx_of(post, pre[i].0) == i,
        idx_of(pre, pre[i].0) == i,
        forall|m: PublicKey|
            has_id(pre, m) && m != pre[i].0 ==> idx_of(post, m) == idx_of(pre, m) && post[idx_of(
                pre,
                m,
            )] == pre[idx_of(pre, m)],
{
    assert(forall|j: int| 0 <= j < pre.len() ==> (#[trigger] pre[j]).0 == post[j].0);
    lemma_same_ids(pre, post, my);
    lemma_lookup(pre, pre[i].0, i);
    lemma_lookup(post, pre[i].0, i);
    assert forall|m: PublicKey| has_id(pre, m) && m != pre[i].0 implies idx_of(post, m) == idx_of(
        pre,
        m,
    ) && post[idx_of(pre, m)] == pre[idx_of(pre, m)] by {
        let k = idx_of(pre, m);
        assert(0 <= k < pre.len() && pre[k].0 == m);
        assert(k != i);
        lemma_lookup(post, m, k);
    }
}

/// Moving an entry to the back (with any flag, keeping id and record)
/// preserves membership, counts and every other entry.
pub proof fn lemma_move_to_back(
    pre: Seq<(PublicKey, NodeInfo, bool)>,
    post: Seq<(PublicKey, NodeInfo, bool)>,
    i: int,
    e: (PublicKey, NodeInfo, bool),
    my: PublicKey,
)
    requires
        unique_ids(pre),
        0 <= i < pre.len(),
        e.0 == pre[i].0,
        post == pre.remove(i).push(e),
    ensures
        unique_ids(post),
        post.len() == pre.len(),
        forall|m: PublicKey| has_id(post, m) == has_id(pre, m),
        forall|b: int| count_bucket(post, my, b) == count_bucket(pre, my, b),
        idx_of(post, e.0) == post.len() - 1,
        post[post.len() - 1] == e,
        forall|m: PublicKey|
            has_id(pre, m) && m != e.0 ==> post[idx_of(post, m)] == pre[idx_of(pre, m)],
    decreases 0int,
{
    let rem = pre.remove(i);
    assert(forall|l: int| 0 <= l < i ==> #[trigger] rem[l] == pre[l]);
    assert(forall|l: int| i <= l < rem.len() ==> #[trigger] rem[l] == pre[l + 1]);
    assert forall|x: int, y: int| 0 <= x < y < post.len() implies post[x].0 != post[y].0 by {
        let px: int = if x < i {
            x
        } else {
            x + 1
        };
        if y == post.len() - 1 {
            assert(post[y] == e);
            assert(post[x] == rem[x]);
            assert(pre[px].0 != pre[i].0 || px == i);
            if px < i {
                assert(pre[px].0 != pre[i].0);
            } else {
                assert(pre[px] == pre[x + 1]);
            }
        } else {
            let py: int = if y < i {
                y
            } else {
                y + 1
            };
            assert(post[x] == rem[x] && post[y] == rem[y]);
            assert(pre[px].0 != pre[py].0);
        }
    }
    assert forall|b: int| count_bucket(post, my, b) == count_bucket(pre, my, b) by {
        lemma_count_bucket_remove(pre, my, b, i);
        assert(post.drop_last() =~= rem);
        assert(post.last() == e);
    }
    assert forall|m: PublicKey| has_id(post, m) == has_id(pre, m) by {
        if has_id(pre, m) {
            let k = choose|k: int| 0 <= k < pre.len() && pre[k].0 == m;
            if k == i {
                assert(post[post.len() - 1].0 == m);
            } else if k < i {
                assert(post[k].0 == m);
            } else {
                assert(post[k - 1].0 == m);
            }
        }
        if has_id(post, m) {
            let k = choose|k: int| 0 <= k < post.len() && post[k].0 == m;
            if k == post.len() - 1 {
                assert(pre[i].0 == m);
            } else if k < i {
                assert(pre[k].0 == m);
            } else {
                assert(pre[k + 1].0 == m);
            }
        }
    }
    lemma_lookup(post, e.0, post.len() - 1);
    assert forall|m: PublicKey| has_id(pre, m) && m != e.0 implies post[idx_of(post, m)]
        == pre[idx_of(pre, m)] by {
        let k = idx_of(pre, m);
        assert(0 <= k < pre.len() && pre[k].0 == m);
        lemma_lookup(pre, m, k);
        assert(k != i);
        if k < i {
            assert(post[k] == pre[k]);
            lemma_lookup(post, m, k);
        } else {
            assert(post[k - 1] == pre[k]);
            lemma_lookup(post, m, k - 1);
        }
    }
}

/// Appending an unknown node adds it to its own bucket and leaves every
/// other entry in place.
pub proof fn lemma_push_new(
    pre: Seq<(PublicKey, NodeInfo, bool)>,
    post: Seq<(PublicKey, NodeInfo, bool)>,
    e: (PublicKey, NodeInfo, bool),
    my: PublicKey,
)
    requires
        unique_ids(pre),
        !has_id(pre, e.0),
        post == pre.push(e),
    ensures
        unique_ids(post),
        post.len() == pre.len() + 1,
        forall|m: PublicKey| has_id(post, m) == (has_id(pre, m) || m == e.0),
        forall|b: int|
            count_bucket(post, my, b) == count_bucket(pre, my, b) + (if bucket_of(
                node_key_spec(e.0),
                node_key_spec(my),
            ) == b {
                1int
            } else {
                0int
            }),
        idx_of(post, e.0) == post.len() - 1,
        post[post.len() - 1] == e,
        forall|m: PublicKey|
            has_id(pre, m) ==> post[idx_of(post, m)] == pre[idx_of(pre, m)],
{
    assert forall|x: int, y: int| 0 <= x < y < post.len() implies post[x].0 != post[y].0 by {
        if y == post.len() - 1 {
            assert(post[x] == pre[x]);
            assert(!has_id(pre, e.0));
            assert(pre[x].0 != e.0);
        } else {
            assert(post[x] == pre[x] && post[y] == pre[y]);
        }
    }
    assert forall|b: int|
        count_bucket(post, my, b) == count_bucket(pre, my, b) + (if bucket_of(
            node_key_spec(e.0),
            node_key_spec(my),
        ) == b {
            1int
        } else {
            0int
        }) by {
        assert(post.drop_last() =~= pre);
        assert(post.last() == e);
    }
    assert forall|m: PublicKey| has_id(post, m) == (has_id(pre, m) || m == e.0) by {
        if has_id(pre, m) {
            let k = choose|k: int| 0 <= k < pre.len() && pre[k].0 == m;
            assert(post[k].0 == m);
        }
        if m == e.0 {
            assert(post[post.len() - 1].0 == m);
        }
        if has_id(post, m) {
            let k = choose|k: int| 0 <= k < post.len() && post[k].0 == m;
            if k < post.len() - 1 {
                assert(pre[k].0 == m);
            }
        }
    }
    lemma_lookup(post, e.0, post.len() - 1);
    assert forall|m: PublicKey| has_id(pre, m) implies post[idx_of(post, m)]
        == pre[idx_of(pre, m)] by {
        let k = idx_of(pre, m);
        assert(0 <= k < pre.len() && pre[k].0 == m);
        lemma_lookup(pre, m, k);
        assert(post[k] == pre[k]);
        lemma_lookup(post, m, k);
    }
}

/// A positive bucket count means the bucket has a member.
pub proof fn lemma_count_member(s: Seq<(PublicKey, NodeInfo, bool)>, my: PublicKey, b: int)
    requires
        count_bucket(s, my, b) > 0,
    ensures
        exists|i: int|
            0 <= i < s.len() && bucket_of(node_key_spec((#[trigger] s[i]).0), node_key_spec(my))
                == b,
    decreases s.len(),
{
    if s.len() > 0 {
        if bucket_of(node_key_spec(s.last().0), node_key_spec(my)) == b {
            assert(s[s.len() - 1].0 == s.last().0);
        } else {
            lemma_count_member(s.drop_last(), my, b);
            let i = choose|i: int|
                0 <= i < s.len() - 1 && bucket_of(
                    node_key_spec((s.drop_last()[i]).0),
                    node_key_spec(my),
                ) == b;
            assert(s[i].0 == s.drop_last()[i].0);
        }
    }
}

/// The routing table.
pub struct KBucketsTable {
    my_id: PublicKey,
    my_key: KadKey,
    /// Known nodes, least-recently seen first; the flag records whether
    /// the table last saw the node connected.
    nodes: Vec<(PublicKey, NodeInfo, bool)>,
    /// Per-bucket timestamp of the last recorded activity.
    refreshes: Vec<u64>,
}

impl KBucketsTable {
    /// The stored entries, least-recently seen first.
    pub closed spec fn nodes_seq(&self) -> Seq<(PublicKey, NodeInfo, bool)> {
        self.nodes@
    }

    /// This node's id.
    pub closed spec fn spec_my_id(&self) -> PublicKey {
        self.my_id
    }

    /// Whether the table knows the node.
    pub open spec fn contains_node(&self, n: PublicKey) -> bool {
        has_id(self.nodes_seq(), n)
    }

    /// The record stored for a known node.
    pub open spec fn spec_info(&self, n: PublicKey) -> NodeInfo {
        self.nodes_seq()[idx_of(self.nodes_seq(), n)].1
    }

    /// Whether the table last saw a known node connected.
    pub open spec fn spec_connected(&self, n: PublicKey) -> bool {
        self.nodes_seq()[idx_of(self.nodes_seq(), n)].2
    }

    /// The table's invariant: ids are unique and never this node's own,
    /// every record is well formed, and no bucket is over its depth.
    pub closed spec fn wf(&self) -> bool {
        &&& unique_ids(self.nodes@)
        &&& forall|i: int| 0 <= i < self.nodes@.len() ==> (#[trigger] self.nodes@[i]).0 != self.my_id
        &&& forall|i: int| 0 <= i < self.nodes@.len() ==> (#[trigger] self.nodes@[i]).1.wf()
        &&& forall|b: int|
            0 <= b < NUM_BUCKETS ==> count_bucket(self.nodes@, self.my_id, b) <= BUCKET_SIZE
        &&& self.my_key@ == node_key_spec(self.my_id)
        &&& self.refreshes@.len() == NUM_BUCKETS
        &&& forall|i: int|
            0 <= i < self.nodes@.len() ==> 0 <= bucket_of(
                node_key_spec((#[trigger] self.nodes@[i]).0),
                node_key_spec(self.my_id),
            ) < NUM_BUCKETS
    }

    /// A well-formed table never stores its own identity.
    pub proof fn lemma_wf_no_self(&self)
        requires
            self.wf(),
        ensures
            !self.contains_node(self.spec_my_id()),
    {
        if self.contains_node(self.spec_my_id()) {
            let i = choose|i: int|
                0 <= i < self.nodes@.len() && (self.nodes@[i]).0 == self.spec_my_id();
        }
    }

    /// An empty table owned by `my_id`.
    pub fn new(my_id: PublicKey) -> (r: KBucketsTable)
        ensures
            r.wf(),
            r.spec_my_id() == my_id,
            r.nodes_seq().len() == 0,
    {
        let my_key = node_key(&my_id);
        let mut refreshes: Vec<u64> = Vec::new();
        let mut i: usize = 0;
        while i < NUM_BUCKETS
            invariant
                0 <= i <= NUM_BUCKETS,
                refreshes@.len() == i,
            decreases NUM_BUCKETS - i,
        {
            refreshes.push(0);
            i += 1;
        }
        KBucketsTable { my_id, my_key, nodes: Vec::new(), refreshes }
    }

    /// A fresh table for a rotated identity.
    pub fn new_table(&self, new_my_id: PublicKey) -> (r: KBucketsTable)
        ensures
            r.wf(),
            r.spec_my_id() == new_my_id,
            r.nodes_seq().len() == 0,
    {
        KBucketsTable::new(new_my_id)
    }

    /// This node's id.
    pub fn my_id(&self) -> (r: PublicKey)
        ensures
            r == self.spec_my_id(),
    {
        self.my_id
    }

    /// The number of stored nodes.
    pub fn size(&self) -> (r: usize)
        ensures
            r == self.nodes_seq().len(),
    {
        self.nodes.len()
    }

    /// The position of the node's entry, if the node is known.
    fn position_of(&self, n: &PublicKey) -> (r: Option<usize>)
        ensures
            match r {
                Some(i) => i < self.nodes_seq().len() && self.nodes_seq()[i as int].0 == *n,
                None => !self.contains_node(*n),
            },
    {
        let mut i: usize = 0;
        while i < self.nodes.len()
            invariant
                0 <= i <= self.nodes@.len(),
                forall|l: int| 0 <= l < i ==> (#[trigger] self.nodes@[l]).0 != *n,
            decreases self.nodes@.len() - i,
        {
            if self.nodes[i].0.id == n.id {
                return Some(i);
            }
            i += 1;
        }
        None
    }

    /// A copy of the record stored for the node, if it is known.
    pub fn get(&self, n: &PublicKey) -> (r: Option<NodeInfo>)
        requires
            self.wf(),
        ensures
            match r {
                Some(info) => {
                    &&& self.contains_node(*n)
                    &&& peer_view(info) == peer_view(self.spec_info(*n))
                    &&& info.addresses@ == self.spec_info(*n).addresses@
                    &&& info.wf()
                },
                None => !self.contains_node(*n),
            },
    {
        match self.position_of(n) {
            Some(i) => {
                proof {
                    lemma_lookup(self.nodes_seq(), *n, i as int);
                }
                Some(self.nodes[i].1.duplicate())
            },
            None => None,
        }
    }

    /// Records the transport identity of a known node; unknown nodes are
    /// ignored.
    pub fn set_node_peer(&mut self, n: &PublicKey, peer: &PeerId)
        requires
            old(self).wf(),
        ensures
            final(self).wf(),
            table_preserved_except(*old(self), *final(self), *n),
            old(self).contains_node(*n) ==> peer_view(final(self).spec_info(*n)) == Some(peer@)
                && final(self).spec_info(*n).addresses@ == old(self).spec_info(*n).addresses@
                && final(self).spec_connected(*n) == old(self).spec_connected(*n),
            !old(self).contains_node(*n) ==> final(self).nodes_seq() == old(self).nodes_seq(),
    {
        match self.position_of(n) {
            Some(i) => {
                let ghost pre = self.nodes@;
                let mut info = self.nodes[i].1.duplicate();
                info.peer_id = Some(peer.duplicate());
                let id = self.nodes[i].0;
                let flag = self.nodes[i].2;
                self.nodes[i] = (id, info, flag);
                proof {
                    lemma_entry_update(pre, self.nodes@, i as int, self.my_id);
                    assert(forall|j: int|
                        0 <= j < pre.len() ==> (#[trigger] pre[j]).0 == self.nodes@[j].0);
                }
            },
            None => {},
        }
    }

    /// Records an address of a known node as connected.
    pub fn add_connected_address(&mut self, n: &PublicKey, addr: &Multiaddr)
        requires
            old(self).wf(),
        ensures
            final(self).wf(),
            table_preserved_except(*old(self), *final(self), *n),
            old(self).contains_node(*n) ==> has_addr(final(self).spec_info(*n).addresses@, addr@)
                && any_connected(final(self).spec_info(*n).addresses@) && peer_view(
                final(self).spec_info(*n),
            ) == peer_view(old(self).spec_info(*n)),
            old(self).contains_node(*n) ==> forall|k: int|
                0 <= k < final(self).spec_info(*n).addresses@.len() && (#[trigger] final(self).spec_info(*n).addresses@[k]).0 == addr@ ==> final(self).spec_info(*n).addresses@[k].1,
            old(self).contains_node(*n) ==> forall|k: int|
                0 <= k < final(self).spec_info(*n).addresses@.len() && (#[trigger] final(self).spec_info(*n).addresses@[k]).0 != addr@ ==> exists|j: int|
                    0 <= j < old(self).spec_info(*n).addresses@.len() && old(self).spec_info(
                        *n,
                    ).addresses@[j] == final(self).spec_info(*n).addresses@[k],
            old(self).contains_node(*n) ==> final(self).spec_connected(*n) == old(
                self,
            ).spec_connected(*n),
            !old(self).contains_node(*n) ==> final(self).nodes_seq() == old(self).nodes_seq(),
    {
        match self.position_of(n) {
            Some(i) => {
                let ghost pre = self.nodes@;
                let mut info = self.nodes[i].1.duplicate();
                info.addresses.insert_connected(addr);
                let id = self.nodes[i].0;
                let flag = self.nodes[i].2;
                self.nodes[i] = (id, info, flag);
                proof {
                    lemma_entry_update(pre, self.nodes@, i as int, self.my_id);
                    assert(forall|j: int|
                        0 <= j < pre.len() ==> (#[trigger] pre[j]).0 == self.nodes@[j].0);
                }
            },
            None => {},
        }
    }

    /// Records an address of a known node without claiming a connection.
    pub fn add_not_connected_address(&mut self, n: &PublicKey, addr: &Multiaddr)
        requires
            old(self).wf(),
        ensures
            final(self).wf(),
            table_preserved_except(*old(self), *final(self), *n),
            old(self).contains_node(*n) ==> has_addr(final(self).spec_info(*n).addresses@, addr@)
                && peer_view(final(self).spec_info(*n)) == peer_view(old(self).spec_info(*n)),
            old(self).contains_node(*n) && has_addr(old(self).spec_info(*n).addresses@, addr@)
                ==> final(self).spec_info(*n).addresses@ == old(self).spec_info(*n).addresses@,
            old(self).contains_node(*n) && !has_addr(old(self).spec_info(*n).addresses@, addr@)
                ==> final(self).spec_info(*n).addresses@ == old(self).spec_info(*n).addresses@.push((addr@, false)),
            !old(self).contains_node(*n) ==> final(self).nodes_seq() == old(self).nodes_seq(),
    {
        match self.position_of(n) {
            Some(i) => {
                let ghost pre = self.nodes@;
                let mut info = self.nodes[i].1.duplicate();
                info.addresses.insert_not_connected(addr);
                let id = self.nodes[i].0;
                let flag = self.nodes[i].2;
                self.nodes[i] = (id, info, flag);
                proof {
                    lemma_entry_update(pre, self.nodes@, i as int, self.my_id);
                    assert(forall|j: int|
                        0 <= j < pre.len() ==> (#[trigger] pre[j]).0 == self.nodes@[j].0);
                }
            },
            None => {},
        }
    }

    /// Tags one address of a known node as disconnected.
    pub fn set_address_disconnected(&mut self, n: &PublicKey, addr: &Multiaddr)
        requires
            old(self).wf(),
        ensures
            final(self).wf(),
            table_preserved_except(*old(self), *final(self), *n),
            old(self).contains_node(*n) ==> final(self).spec_info(*n).addresses@.len() == old(self).spec_info(*n).addresses@.len() && peer_view(final(self).spec_info(*n)) == peer_view(
                old(self).spec_info(*n),
            ) && (forall|k: int|
                0 <= k < old(self).spec_info(*n).addresses@.len() ==> (#[trigger] final(self).spec_info(*n).addresses@[k]).0 == old(self).spec_info(*n).addresses@[k].0
                    && final(self).spec_info(*n).addresses@[k].1 == (old(self).spec_info(*n).addresses@[k].1 && old(self).spec_info(*n).addresses@[k].0 != addr@)),
            !old(self).contains_node(*n) ==> final(self).nodes_seq() == old(self).nodes_seq(),
    {
        match self.position_of(n) {
            Some(i) => {
                let ghost pre = self.nodes@;
                let mut info = self.nodes[i].1.duplicate();
                info.addresses.set_disconnected(addr);
                let id = self.nodes[i].0;
                let flag = self.nodes[i].2;
                self.nodes[i] = (id, info, flag);
                proof {
                    lemma_entry_update(pre, self.nodes@, i as int, self.my_id);
                    assert(forall|j: int|
                        0 <= j < pre.len() ==> (#[trigger] pre[j]).0 == self.nodes@[j].0);
                }
            },
            None => {},
        }
    }

    /// Forgets one address of a known node.
    pub fn remove_node_address(&mut self, n: &PublicKey, addr: &Multiaddr)
        requires
            old(self).wf(),
        ensures
            final(self).wf(),
            table_preserved_except(*old(self), *final(self), *n),
            old(self).contains_node(*n) ==> !has_addr(final(self).spec_info(*n).addresses@, addr@)
                && peer_view(final(self).spec_info(*n)) == peer_view(old(self).spec_info(*n)),
            !old(self).contains_node(*n) ==> final(self).nodes_seq() == old(self).nodes_seq(),
    {
        match self.position_of(n) {
            Some(i) => {
                let ghost pre = self.nodes@;
                let mut info = self.nodes[i].1.duplicate();
                info.addresses.remove_addr(addr);
                let id = self.nodes[i].0;
                let flag = self.nodes[i].2;
                self.nodes[i] = (id, info, flag);
                proof {
                    lemma_entry_update(pre, self.nodes@, i as int, self.my_id);
                    assert(forall|j: int|
                        0 <= j < pre.len() ==> (#[trigger] pre[j]).0 == self.nodes@[j].0);
                }
            },
            None => {},
        }
    }

    /// Marks a known node as no longer connected; it keeps its place.
    pub fn set_disconnected(&mut self, n: &PublicKey)
        requires
            old(self).wf(),
        ensures
            final(self).wf(),
            table_preserved_except(*old(self), *final(self), *n),
            old(self).contains_node(*n) ==> !final(self).spec_connected(*n) && peer_view(
                final(self).spec_info(*n),
            ) == peer_view(old(self).spec_info(*n)) && final(self).spec_info(*n).addresses@ == old(self).spec_info(*n).addresses@,
            !old(self).contains_node(*n) ==> final(self).nodes_seq() == old(self).nodes_seq(),
    {
        match self.position_of(n) {
            Some(i) => {
                let ghost pre = self.nodes@;
                let info = self.nodes[i].1.duplicate();
                let id = self.nodes[i].0;
                self.nodes[i] = (id, info, false);
                proof {
                    lemma_entry_update(pre, self.nodes@, i as int, self.my_id);
                    assert(forall|j: int|
                        0 <= j < pre.len() ==> (#[trigger] pre[j]).0 == self.nodes@[j].0);
                }
            },
            None => {},
        }
    }
}

impl KBucketsTable {
    /// How many stored nodes fall into bucket `b`.
    fn count_bucket_exec(&self, b: usize) -> (r: usize)
        requires
            self.wf(),
        ensures
            r == count_bucket(self.nodes_seq(), self.spec_my_id(), b as int),
    {
        let mut cnt: usize = 0;
        let mut i: usize = 0;
        while i < self.nodes.len()
            invariant
                0 <= i <= self.nodes@.len(),
                self.wf(),
                cnt == count_bucket(self.nodes@.take(i as int), self.my_id, b as int),
                cnt <= i,
            decreases self.nodes@.len() - i,
        {
            let key = node_key(&self.nodes[i].0);
            proof {
                assert(self.nodes@.take(i + 1).drop_last() =~= self.nodes@.take(i as int));
                assert(self.nodes@.take(i + 1).last() == self.nodes@[i as int]);
            }
            match bucket_index(&key, &self.my_key) {
                Some(bi) => {
                    if bi == b {
                        cnt += 1;
                    }
                },
                None => {},
            }
            i += 1;
        }
        proof {
            assert(self.nodes@.take(self.nodes@.len() as int) =~= self.nodes@);
        }
        cnt
    }

    /// The position of the least-recently seen member of bucket `b`.
    fn find_lru_in_bucket(&self, b: usize) -> (r: Option<usize>)
        requires
            self.wf(),
        ensures
            match r {
                Some(j) => j < self.nodes_seq().len() && bucket_of(
                    node_key_spec(self.nodes_seq()[j as int].0),
                    node_key_spec(self.spec_my_id()),
                ) == b && forall|l: int|
                    0 <= l < j ==> bucket_of(
                        node_key_spec((#[trigger] self.nodes_seq()[l]).0),
                        node_key_spec(self.spec_my_id()),
                    ) != b,
                None => forall|l: int|
                    0 <= l < self.nodes_seq().len() ==> bucket_of(
                        node_key_spec((#[trigger] self.nodes_seq()[l]).0),
                        node_key_spec(self.spec_my_id()),
                    ) != b,
            },
    {
        let mut i: usize = 0;
        while i < self.nodes.len()
            invariant
                0 <= i <= self.nodes@.len(),
                self.wf(),
                forall|l: int|
                    0 <= l < i ==> bucket_of(
                        node_key_spec((#[trigger] self.nodes@[l]).0),
                        node_key_spec(self.my_id),
                    ) != b,
            decreases self.nodes@.len() - i,
        {
            let key = node_key(&self.nodes[i].0);
            match bucket_index(&key, &self.my_key) {
                Some(bi) => {
                    if bi == b {
                        return Some(i);
                    }
                },
                None => {},
            }
            i += 1;
        }
        None
    }

    /// Records activity in bucket `b`.
    fn touch_bucket(&mut self, b: usize, now: u64)
        requires
            old(self).wf(),
            b < NUM_BUCKETS,
        ensures
            final(self).wf(),
            final(self).nodes_seq() == old(self).nodes_seq(),
            final(self).spec_my_id() == old(self).spec_my_id(),
    {
        self.refreshes[b] = now;
    }

    /// Whether bucket `b` has seen no activity for the expiration period.
    pub fn is_bucket_stale(&self, b: usize, now: u64) -> (r: bool)
        requires
            self.wf(),
            b < NUM_BUCKETS,
        ensures
            r == (now - self.spec_refresh(b as int) > BUCKET_EXPIRATION_MS),
    {
        let last = self.refreshes[b];
        now >= last && now - last > BUCKET_EXPIRATION_MS
    }

    /// The last recorded activity in bucket `b`.
    pub closed spec fn spec_refresh(&self, b: int) -> u64 {
        self.refreshes@[b]
    }

    /// Records the node as just seen and connected.  A known node moves to
    /// the most-recently-seen end of the table.  An unknown node joins its
    /// bucket if the bucket has room, or replaces the bucket's oldest
    /// member if that member is disconnected; otherwise the caller is
    /// asked to probe the returned oldest member, and the node gets in by
    /// announcing itself again once that member is evicted.
    #[verifier::rlimit(60)]
    pub fn set_connected(&mut self, n: &PublicKey, now: u64) -> (r: Update)
        requires
            old(self).wf(),
        ensures
            final(self).wf(),
            final(self).spec_my_id() == old(self).spec_my_id(),
            *n == old(self).spec_my_id() ==> final(self).nodes_seq() == old(self).nodes_seq() && r
                == Update::Added,
            *n != old(self).spec_my_id() ==> match r {
                Update::Added => {
                    &&& final(self).contains_node(*n)
                    &&& final(self).spec_connected(*n)
                    &&& (old(self).contains_node(*n) ==> peer_view(final(self).spec_info(*n))
                        == peer_view(old(self).spec_info(*n)) && final(self).spec_info(*n).addresses@ == old(self).spec_info(*n).addresses@)
                    &&& (!old(self).contains_node(*n) ==> peer_view(final(self).spec_info(*n))
                        is None && final(self).spec_info(*n).addresses@.len() == 0)
                    &&& forall|m: PublicKey|
                        m != *n && final(self).contains_node(m) ==> old(self).contains_node(m)
                    &&& forall|m: PublicKey| #![auto]
                        m != *n && old(self).contains_node(m) && !final(self).contains_node(m)
                            ==> !old(self).spec_connected(m)
                    &&& forall|m: PublicKey| #![auto]
                        m != *n && old(self).contains_node(m) && final(self).contains_node(m)
                            ==> peer_view(final(self).spec_info(m)) == peer_view(
                            old(self).spec_info(m),
                        ) && final(self).spec_info(m).addresses@ == old(self).spec_info(
                            m,
                        ).addresses@ && final(self).spec_connected(m) == old(self).spec_connected(
                            m,
                        )
                },
                Update::Pending(lru) => {
                    &&& final(self).nodes_seq() == old(self).nodes_seq()
                    &&& old(self).contains_node(lru)
                    &&& old(self).spec_connected(lru)
                    &&& !old(self).contains_node(*n)
                    &&& count_bucket(
                        old(self).nodes_seq(),
                        old(self).spec_my_id(),
                        bucket_of(node_key_spec(*n), node_key_spec(old(self).spec_my_id())),
                    ) == BUCKET_SIZE
                    &&& lru == bucket_oldest(
                        old(self).nodes_seq(),
                        old(self).spec_my_id(),
                        bucket_of(node_key_spec(*n), node_key_spec(old(self).spec_my_id())),
                    )
                },
            },
            *n != old(self).spec_my_id() && !old(self).contains_node(*n) && count_bucket(
                old(self).nodes_seq(),
                old(self).spec_my_id(),
                bucket_of(node_key_spec(*n), node_key_spec(old(self).spec_my_id())),
            ) == BUCKET_SIZE && old(self).spec_connected(
                bucket_oldest(
                    old(self).nodes_seq(),
                    old(self).spec_my_id(),
                    bucket_of(node_key_spec(*n), node_key_spec(old(self).spec_my_id())),
                ),
            ) ==> r == Update::Pending(
                bucket_oldest(
                    old(self).nodes_seq(),
                    old(self).spec_my_id(),
                    bucket_of(node_key_spec(*n), node_key_spec(old(self).spec_my_id())),
                ),
            ),
    {
        if n.id == self.my_id.id {
            return Update::Added;
        }
        proof {
            if node_key_spec(*n) == node_key_spec(self.my_id) {
                lemma_node_key_injective(*n, self.my_id);
            }
        }
        let key = node_key(n);
        let b = match bucket_index(&key, &self.my_key) {
            Some(b) => b,
            None => {
                proof {
                    let p = crate::kad_key::first_diff(key@, self.my_key@, 0);
                    lemma_first_diff_range(key@, self.my_key@, 0);
                    lemma_first_diff_is_diff(key@, self.my_key@, 0);
                    if p >= 0 {
                        let xa = key@[p];
                        let xb = self.my_key@[p];
                        assert(xa != xb ==> (xa ^ xb) != 0) by (bit_vector);
                        assert(bucket_of(key@, self.my_key@) >= 0);
                    }
                    assert(key@ =~= self.my_key@);
                    lemma_node_key_injective(*n, self.my_id);
                    assert(false);
                }
                0
            },
        };
        proof {
            lemma_bucket_range(key@, self.my_key@);
            assert(key_headered(node_key_spec(self.my_id))) by {
                assert(node_key_spec(self.my_id)[0] == node_key_byte(self.my_id, 0));
                assert(node_key_spec(self.my_id)[1] == node_key_byte(self.my_id, 1));
            }
        }
        let ghost pre = self.nodes@;
        let pos = self.position_of(n);
        match pos {
            Some(i) => {
                let entry = self.nodes.remove(i);
                self.nodes.push((entry.0, entry.1, true));
                proof {
                    lemma_lookup(pre, *n, i as int);
                    lemma_move_to_back(
                        pre,
                        self.nodes@,
                        i as int,
                        (pre[i as int].0, self.nodes@[self.nodes@.len() - 1].1, true),
                        self.my_id,
                    );
                }
                self.touch_bucket(b, now);
                Update::Added
            },
            None => {
                let cnt = self.count_bucket_exec(b);
                if cnt < BUCKET_SIZE {
                    self.nodes.push((*n, NodeInfo::new(), true));
                    proof {
                        lemma_push_new(
                            pre,
                            self.nodes@,
                            self.nodes@[self.nodes@.len() - 1],
                            self.my_id,
                        );
                        assert forall|bb: int|
                            0 <= bb < NUM_BUCKETS implies count_bucket(
                            self.nodes@,
                            self.my_id,
                            bb,
                        ) <= BUCKET_SIZE by {
                            lemma_count_bucket_nonneg(pre, self.my_id, bb);
                        }
                    }
                    self.touch_bucket(b, now);
                    Update::Added
                } else {
                    let j = match self.find_lru_in_bucket(b) {
                        Some(j) => j,
                        None => {
                            proof {
                                lemma_count_member(self.nodes@, self.my_id, b as int);
                                assert(false);
                            }
                            0
                        },
                    };
                    proof {
                        lemma_bucket_oldest_first(self.nodes@, self.my_id, b as int, j as int);
                        lemma_lookup(self.nodes@, self.nodes@[j as int].0, j as int);
                        assert(self.spec_connected(self.nodes@[j as int].0) == self.nodes@[j
                            as int].2);
                    }
                    if !self.nodes[j].2 {
                        let ghost lru = pre[j as int].0;
                        self.nodes.remove(j);
                        let ghost mid = self.nodes@;
                        self.nodes.push((*n, NodeInfo::new(), true));
                        proof {
                            lemma_lookup(pre, lru, j as int);
                            assert forall|x: int, y: int|
                                0 <= x < y < mid.len() implies mid[x].0 != mid[y].0 by {
                                let px: int = if x < j {
                                    x
                                } else {
                                    x + 1
                                };
                                let py: int = if y < j {
                                    y
                                } else {
                                    y + 1
                                };
                                assert(mid[x] == pre[px] && mid[y] == pre[py]);
                            }
                            assert forall|m: PublicKey| has_id(mid, m) implies has_id(pre, m)
                                && m != lru by {
                                let k = choose|k: int| 0 <= k < mid.len() && mid[k].0 == m;
                                if k < j {
                                    assert(pre[k].0 == m);
                                } else {
                                    assert(pre[k + 1].0 == m);
                                }
                                lemma_lookup(pre, m, if k < j { k } else { k + 1 });
                            }
                            assert forall|m: PublicKey|
                                has_id(pre, m) && m != lru implies has_id(mid, m) && mid[idx_of(
                                mid,
                                m,
                            )] == pre[idx_of(pre, m)] by {
                                let k = idx_of(pre, m);
                                assert(0 <= k < pre.len() && pre[k].0 == m);
                                lemma_lookup(pre, m, k);
                                assert(k != j);
                                if k < j {
                                    assert(mid[k] == pre[k]);
                                    lemma_lookup(mid, m, k);
                                } else {
                                    assert(mid[k - 1] == pre[k]);
                                    lemma_lookup(mid, m, k - 1);
                                }
                            }
                            assert(!has_id(mid, *n));
                            lemma_push_new(
                                mid,
                                self.nodes@,
                                self.nodes@[self.nodes@.len() - 1],
                                self.my_id,
                            );
                            assert forall|bb: int|
                                0 <= bb < NUM_BUCKETS implies count_bucket(
                                self.nodes@,
                                self.my_id,
                                bb,
                            ) <= BUCKET_SIZE by {
                                lemma_count_bucket_remove(pre, self.my_id, bb, j as int);
                                lemma_count_bucket_nonneg(pre, self.my_id, bb);
                            }
                        }
                        self.touch_bucket(b, now);
                        Update::Added
                    } else {
                        let lru = self.nodes[j].0;
                        proof {
                            lemma_lookup(self.nodes@, lru, j as int);
                        }
                        Update::Pending(lru)
                    }
                }
            },
        }
    }
}

/// Nodes listed closest-first with respect to `t`.
pub open spec fn sorted_by_dist(s: Seq<PublicKey>, t: Seq<u8>) -> bool {
    forall|i: int, j: int|
        0 <= i < j < s.len() ==> dist_le(
            node_key_spec(#[trigger] s[i]),
            node_key_spec(#[trigger] s[j]),
            t,
        )
}

/// No node appears twice.
pub open spec fn distinct_nodes(s: Seq<PublicKey>) -> bool {
    forall|i: int, j: int| 0 <= i < j < s.len() ==> s[i] != s[j]
}

/// The first position whose node is strictly farther from the target than
/// `e`, which is where `e` belongs in a closest-first list.
fn insert_position(out: &Vec<PublicKey>, ekey: &KadKey, target: &KadKey) -> (pos: usize)
    requires
        ekey.wf(),
        target.wf(),
    ensures
        0 <= pos <= out@.len(),
        forall|l: int|
            0 <= l < pos ==> dist_le(node_key_spec(#[trigger] out@[l]), ekey@, target@),
        pos < out@.len() ==> xcmp_from(ekey@, node_key_spec(out@[pos as int]), target@, 0) is Less,
{
    let mut pos: usize = 0;
    while pos < out.len()
        invariant
            0 <= pos <= out@.len(),
            ekey.wf(),
            target.wf(),
            forall|l: int|
                0 <= l < pos ==> dist_le(node_key_spec(#[trigger] out@[l]), ekey@, target@),
        decreases out@.len() - pos,
    {
        let okey = node_key(&out[pos]);
        let c = xor_distance_cmp(ekey, &okey, target);
        match c {
            core::cmp::Ordering::Less => {
                return pos;
            },
            _ => {
                proof {
                    lemma_xcmp_flip(ekey@, okey@, target@, 0);
                }
            },
        }
        pos += 1;
    }
    pos
}

/// Places `e` into a closest-first list of nodes, keeping it closest-first
/// and duplicate-free.
fn insert_sorted(out: &mut Vec<PublicKey>, e: PublicKey, target: &KadKey)
    requires
        target.wf(),
        sorted_by_dist(old(out)@, target@),
        distinct_nodes(old(out)@),
        !old(out)@.contains(e),
    ensures
        final(out)@.len() == old(out)@.len() + 1,
        sorted_by_dist(final(out)@, target@),
        distinct_nodes(final(out)@),
        final(out)@.contains(e),
        forall|m: PublicKey| old(out)@.contains(m) ==> final(out)@.contains(m),
        forall|l: int|
            0 <= l < final(out)@.len() ==> final(out)@[l] == e || old(out)@.contains(
                #[trigger] final(out)@[l],
            ),
{
    let ghost pre = out@;
    let ekey = node_key(&e);
    let pos = insert_position(out, &ekey, target);
    out.insert(pos, e);
    proof {
        pre.insert_ensures(pos as int, e);
        let post = out@;
        assert(post[pos as int] == e);
        // strictly-farther entries stay behind the new one
        assert forall|l: int| pos < l < post.len() implies dist_le(
            ekey@,
            node_key_spec(#[trigger] post[l]),
            target@,
        ) by {
            assert(post[l] == pre[l - 1]);
            if l - 1 > pos {
                assert(dist_le(node_key_spec(pre[pos as int]), node_key_spec(pre[l - 1]), target@));
                lemma_xcmp_trans(
                    ekey@,
                    node_key_spec(pre[pos as int]),
                    node_key_spec(pre[l - 1]),
                    target@,
                    0,
                );
            }
        }
        assert forall|i: int, j: int| 0 <= i < j < post.len() implies dist_le(
            node_key_spec(#[trigger] post[i]),
            node_key_spec(#[trigger] post[j]),
            target@,
        ) by {
            if i < pos && j < pos {
                assert(post[i] == pre[i] && post[j] == pre[j]);
            } else if i < pos && j == pos {
                assert(post[i] == pre[i]);
            } else if i < pos && j > pos {
                assert(post[i] == pre[i] && post[j] == pre[j - 1]);
            } else if i == pos {
                assert(dist_le(ekey@, node_key_spec(post[j]), target@));
            } else {
                assert(post[i] == pre[i - 1] && post[j] == pre[j - 1]);
            }
        }
        assert forall|i: int, j: int| 0 <= i < j < post.len() implies post[i] != post[j] by {
            if i == pos {
                assert(post[j] == pre[j - 1]);
                assert(pre.contains(pre[j - 1]));
            } else if j == pos {
                assert(post[i] == pre[i]);
                assert(pre.contains(pre[i]));
            } else {
                let pi: int = if i < pos {
                    i
                } else {
                    i - 1
                };
                let pj: int = if j < pos {
                    j
                } else {
                    j - 1
                };
                assert(post[i] == pre[pi] && post[j] == pre[pj]);
            }
        }
        assert(post.contains(e)) by {
            assert(post[pos as int] == e);
        }
        assert forall|m: PublicKey| pre.contains(m) implies post.contains(m) by {
            let k = choose|k: int| 0 <= k < pre.len() && pre[k] == m;
            if k < pos {
                assert(post[k] == m);
            } else {
                assert(post[k + 1] == m);
            }
        }
        assert forall|l: int| 0 <= l < post.len() implies post[l] == e || pre.contains(
            #[trigger] post[l],
        ) by {
            if l < pos {
                assert(post[l] == pre[l]);
                assert(pre.contains(pre[l]));
            } else if l > pos {
                assert(post[l] == pre[l - 1]);
                assert(pre.contains(pre[l - 1]));
            }
        }
    }
}

impl KBucketsTable {
    /// All known nodes, closest to the target first: ascending XOR
    /// distance, without duplicates.
    pub fn find_closest(&self, target: &KadKey) -> (r: Vec<PublicKey>)
        requires
            self.wf(),
            target.wf(),
        ensures
            r@.len() == self.nodes_seq().len(),
            forall|i: int| 0 <= i < r@.len() ==> self.contains_node(#[trigger] r@[i]),
            forall|m: PublicKey| self.contains_node(m) ==> r@.contains(m),
            distinct_nodes(r@),
            sorted_by_dist(r@, target@),
            forall|i: int, j: int|
                0 <= i < j < r@.len() ==> dist_lt(
                    node_key_spec(#[trigger] r@[i]),
                    node_key_spec(#[trigger] r@[j]),
                    target@,
                ),
    {
        let mut out: Vec<PublicKey> = Vec::new();
        let mut i: usize = 0;
        while i < self.nodes.len()
            invariant
                0 <= i <= self.nodes@.len(),
                self.wf(),
                target.wf(),
                out@.len() == i,
                sorted_by_dist(out@, target@),
                distinct_nodes(out@),
                forall|l: int|
                    0 <= l < out@.len() ==> exists|k: int|
                        0 <= k < i && self.nodes@[k].0 == #[trigger] out@[l],
                forall|k: int| 0 <= k < i ==> out@.contains((#[trigger] self.nodes@[k]).0),
            decreases self.nodes@.len() - i,
        {
            let e = self.nodes[i].0;
            proof {
                if out@.contains(e) {
                    let l = choose|l: int| 0 <= l < out@.len() && out@[l] == e;
                    let k = choose|k: int| 0 <= k < i && self.nodes@[k].0 == out@[l];
                    assert(self.nodes@[k].0 == self.nodes@[i as int].0);
                    assert(false);
                }
            }
            let ghost pre = out@;
            insert_sorted(&mut out, e, target);
            proof {
                assert forall|l: int|
                    0 <= l < out@.len() implies exists|k: int|
                        0 <= k < i + 1 && self.nodes@[k].0 == #[trigger] out@[l] by {
                    if out@[l] == e {
                        assert(self.nodes@[i as int].0 == out@[l]);
                    } else {
                        assert(pre.contains(out@[l]));
                        let p = choose|p: int| 0 <= p < pre.len() && pre[p] == out@[l];
                        let k = choose|k: int| 0 <= k < i && self.nodes@[k].0 == pre[p];
                        assert(self.nodes@[k].0 == out@[l]);
                    }
                }
            }
            i += 1;
        }
        proof {
            assert forall|a: int, c: int| 0 <= a < c < out@.len() implies dist_lt(
                node_key_spec(#[trigger] out@[a]),
                node_key_spec(#[trigger] out@[c]),
                target@,
            ) by {
                let ka = node_key_spec(out@[a]);
                let kc = node_key_spec(out@[c]);
                assert(dist_le(ka, kc, target@));
                if !(xcmp_from(ka, kc, target@, 0) is Less) {
                    assert(xcmp_from(ka, kc, target@, 0) is Equal);
                    assert(ka.len() == KAD_KEY_LEN && kc.len() == KAD_KEY_LEN && target@.len()
                        == KAD_KEY_LEN);
                    lemma_xcmp_eq(ka, kc, target@, 0);
                    assert(ka =~= kc);
                    lemma_node_key_injective(out@[a], out@[c]);
                    assert(out@[a] == out@[c]);
                }
            }
            assert forall|l: int| 0 <= l < out@.len() implies self.contains_node(
                #[trigger] out@[l],
            ) by {
                let k = choose|k: int|
                    0 <= k < self.nodes@.len() && self.nodes@[k].0 == out@[l];
            }
            assert forall|m: PublicKey| self.contains_node(m) implies out@.contains(m) by {
                let k = choose|k: int| 0 <= k < self.nodes@.len() && self.nodes@[k].0 == m;
            }
        }
        out
    }

    /// All known nodes and this node itself, closest to the target first.
    pub fn find_closest_with_self(&self, target: &KadKey) -> (r: Vec<PublicKey>)
        requires
            self.wf(),
            target.wf(),
        ensures
            r@.len() == self.nodes_seq().len() + 1,
            r@.contains(self.spec_my_id()),
            forall|i: int|
                0 <= i < r@.len() ==> self.contains_node(#[trigger] r@[i]) || r@[i]
                    == self.spec_my_id(),
            forall|m: PublicKey| self.contains_node(m) ==> r@.contains(m),
            distinct_nodes(r@),
            sorted_by_dist(r@, target@),
    {
        let mut out = self.find_closest(target);
        proof {
            if out@.contains(self.spec_my_id()) {
                let l = choose|l: int| 0 <= l < out@.len() && out@[l] == self.spec_my_id();
                assert(self.contains_node(out@[l]));
                let k = idx_of(self.nodes_seq(), self.spec_my_id());
                assert(0 <= k < self.nodes@.len() && self.nodes@[k].0 == self.spec_my_id());
                assert(false);
            }
        }
        let ghost pre = out@;
        let me = self.my_id();
        insert_sorted(&mut out, me, target);
        proof {
            assert forall|m: PublicKey| self.contains_node(m) implies out@.contains(m) by {
                assert(pre.contains(m));
            }
        }
        out
    }
}

/// The tables agree on ownership and membership, and every record other
/// than `n`'s is unchanged.
pub open spec fn table_preserved_except(
    pre: KBucketsTable,
    post: KBucketsTable,
    n: PublicKey,
) -> bool {
    &&& post.spec_my_id() == pre.spec_my_id()
    &&& post.nodes_seq().len() == pre.nodes_seq().len()
    &&& forall|m: PublicKey| post.contains_node(m) == pre.contains_node(m)
    &&& forall|m: PublicKey| #![auto]
        pre.contains_node(m) && m != n ==> peer_view(post.spec_info(m)) == peer_view(
            pre.spec_info(m),
        ) && post.spec_info(m).addresses@ == pre.spec_info(m).addresses@ && post.spec_connected(m)
            == pre.spec_connected(m)
}

} // verus!
