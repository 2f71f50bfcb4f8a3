//! The iterative lookup state machine.
//!
//! A query keeps a candidate list sorted by XOR distance to its target.
//! Each candidate is in exactly one state: not yet contacted, waiting for
//! a reply until a deadline, succeeded, or failed.  Polling dispatches up
//! to `parallelism` concurrent requests to the closest uncontacted
//! candidates inside the result window, fails candidates whose deadline
//! has passed, cancels requests the result no longer needs, and finishes
//! when the window is settled.

use crate::crypto::PublicKey;
use crate::kad_key::{
    dist_lt, lemma_node_key_injective, lemma_xcmp_eq, lemma_xcmp_flip, lemma_xcmp_refl,
    lemma_xcmp_trans, node_key, node_key_spec, xcmp_from, xor_distance_cmp, KadKey, KAD_KEY_LEN,
};
use vstd::prelude::*;

verus! {

/// What a query looks for: the nodes nearest a key, or the providers of a
/// key.
#[derive(Clone, Debug)]
pub enum QueryTarget {
    FindPeer(KadKey),
    GetProviders(KadKey),
}

/// The key a target's candidates are ranked against.
pub open spec fn target_hash(t: QueryTarget) -> Seq<u8> {
    match t {
        QueryTarget::FindPeer(k) => k@,
        QueryTarget::GetProviders(k) => k@,
    }
}

impl QueryTarget {
    /// A full-width key.
    pub open spec fn wf(&self) -> bool {
        target_hash(*self).len() == KAD_KEY_LEN
    }

    /// The key candidates are ranked against.
    pub fn as_hash(&self) -> (r: &KadKey)
        ensures
            r@ == target_hash(*self),
    {
        match self {
            QueryTarget::FindPeer(k) => k,
            QueryTarget::GetProviders(k) => k,
        }
    }

    /// Copies the target.
    pub fn duplicate(&self) -> (r: QueryTarget)
        ensures
            r is FindPeer <==> self is FindPeer,
            target_hash(r) == target_hash(*self),
    {
        match self {
            QueryTarget::FindPeer(k) => QueryTarget::FindPeer(k.duplicate()),
            QueryTarget::GetProviders(k) => QueryTarget::GetProviders(k.duplicate()),
        }
    }
}

/// The life stage of one candidate.
#[derive(Clone, Copy, Debug, PartialEq, Eq, Structural)]
pub enum PeerState {
    NotContacted,
    Waiting(u64),
    Succeeded,
    Failed,
}

/// One step of driving a query.
#[derive(Clone, Copy, Debug, PartialEq, Eq, Structural)]
pub enum QueryStep {
    /// Send the query's request to this node.
    SendRpc { node_id: PublicKey },
    /// A request to this node is no longer needed.
    CancelRpc { node_id: PublicKey },
    /// The query is complete.
    Finished,
    /// Nothing to do until a reply, an error or a deadline arrives.
    NotReady,
}

/// How far a candidate still is from settling: an uncontacted candidate
/// needs a dispatch and a reply, a waiting one only a reply.
pub open spec fn state_weight(s: PeerState) -> int {
    match s {
        PeerState::NotContacted => 2,
        PeerState::Waiting(_) => 1,
        _ => 0,
    }
}

/// The number of candidates waiting for a reply.
pub open spec fn count_waiting(s: Seq<(PublicKey, PeerState)>) -> int
    decreases s.len(),
{
    if s.len() == 0 {
        0
    } else {
        count_waiting(s.drop_last()) + if s.last().1 is Waiting {
            1int
        } else {
            0int
        }
    }
}

/// The query's remaining work: the summed weight of its candidates.
pub open spec fn query_measure(s: Seq<(PublicKey, PeerState)>) -> int
    decreases s.len(),
{
    if s.len() == 0 {
        0
    } else {
        query_measure(s.drop_last()) + state_weight(s.last().1)
    }
}

/// Waiting counts and measures are non-negative.
pub proof fn lemma_counts_nonneg(s: Seq<(PublicKey, PeerState)>)
    ensures
        0 <= count_waiting(s) <= s.len(),
        0 <= query_measure(s) <= 2 * s.len(),
    decreases s.len(),
{
    if s.len() > 0 {
        lemma_counts_nonneg(s.drop_last());
    }
}

/// Replacing one candidate's state shifts the waiting count and the
/// measure by the difference of the weights.
pub proof fn lemma_counts_update(s: Seq<(PublicKey, PeerState)>, i: int, e: (PublicKey, PeerState))
    requires
        0 <= i < s.len(),
    ensures
        count_waiting(s.update(i, e)) == count_waiting(s) - (if s[i].1 is Waiting {
            1int
        } else {
            0int
        }) + (if e.1 is Waiting {
            1int
        } else {
            0int
        }),
        query_measure(s.update(i, e)) == query_measure(s) - state_weight(s[i].1) + state_weight(
            e.1,
        ),
    decreases s.len(),
{
    if i == s.len() - 1 {
        assert(s.update(i, e).drop_last() =~= s.drop_last());
        assert(s.update(i, e).last() == e);
    } else {
        assert(s.update(i, e).drop_last() =~= s.drop_last().update(i, e));
        assert(s.update(i, e).last() == s.last());
        lemma_counts_update(s.drop_last(), i, e);
    }
}

/// Inserting a fresh candidate leaves the waiting count unchanged and
/// raises the measure by its weight.
pub proof fn lemma_counts_insert(s: Seq<(PublicKey, PeerState)>, k: int, e: (PublicKey, PeerState))
    requires
        0 <= k <= s.len(),
    ensures
        count_waiting(s.insert(k, e)) == count_waiting(s) + (if e.1 is Waiting {
            1int
        } else {
            0int
        }),
        query_measure(s.insert(k, e)) == query_measure(s) + state_weight(e.1),
    decreases s.len(),
{
    let ins = s.insert(k, e);
    s.insert_ensures(k, e);
    if k == s.len() {
        assert(ins.drop_last() =~= s);
        assert(ins.last() == e);
    } else {
        assert(ins.last() == s.last());
        assert(ins.drop_last() =~= s.drop_last().insert(k, e)) by {
            s.drop_last().insert_ensures(k, e);
        }
        lemma_counts_insert(s.drop_last(), k, e);
    }
}

/// Candidates listed strictly closest-first with respect to `t`.
pub open spec fn entries_sorted(s: Seq<(PublicKey, PeerState)>, t: Seq<u8>) -> bool {
    forall|i: int, j: int|
        0 <= i < j < s.len() ==> dist_lt(
            node_key_spec((#[trigger] s[i]).0),
            node_key_spec((#[trigger] s[j]).0),
            t,
        )
}

/// Whether some candidate carries the id.
pub open spec fn has_entry(s: Seq<(PublicKey, PeerState)>, n: PublicKey) -> bool {
    exists|i: int| 0 <= i < s.len() && s[i].0 == n
}

/// Whether the query is waiting on `n`.
pub open spec fn has_waiting(s: Seq<(PublicKey, PeerState)>, n: PublicKey) -> bool {
    exists|i: int| 0 <= i < s.len() && (#[trigger] s[i]).0 == n && s[i].1 is Waiting
}

/// Whether `n` is settled as having answered.
pub open spec fn has_succeeded(s: Seq<(PublicKey, PeerState)>, n: PublicKey) -> bool {
    exists|i: int| 0 <= i < s.len() && (#[trigger] s[i]).0 == n && s[i].1 is Succeeded
}

/// A query that cannot dispatch another request right now: either its
/// full allowance of requests is in flight, or no candidate inside the
/// result window remains uncontacted.
pub open spec fn query_quiet(q: QueryState) -> bool {
    count_waiting(q.entries()) == q.spec_parallelism() || forall|x: int|
        0 <= x < q.entries().len() && x < q.spec_num_results() ==> !((#[trigger] q.entries()[
            x
        ]).1 is NotContacted)
}

/// How a candidate list looks after a failure was recorded for `node`:
/// the same candidates, `node`'s waiting entry now failed, and nothing
/// else changed.
pub open spec fn failed_only(
    pre: Seq<(PublicKey, PeerState)>,
    post: Seq<(PublicKey, PeerState)>,
    node: PublicKey,
) -> bool {
    &&& post.len() == pre.len()
    &&& forall|e: int| 0 <= e < pre.len() ==> (#[trigger] post[e]).0 == pre[e].0
    &&& forall|e: int|
        0 <= e < pre.len() ==> (#[trigger] post[e]).1 == pre[e].1 || (pre[e].0 == node && pre[
            e
        ].1 is Waiting && post[e].1 is Failed)
    &&& forall|e: int|
        0 <= e < pre.len() && (#[trigger] pre[e]).0 == node && pre[e].1 is Waiting ==> post[
            e
        ].1 is Failed
}

/// A waiting member makes the waiting count positive, and any member's
/// weight is bounded by the measure.
pub proof fn lemma_member_counts(s: Seq<(PublicKey, PeerState)>, l: int)
    requires
        0 <= l < s.len(),
    ensures
        s[l].1 is Waiting ==> count_waiting(s) >= 1,
        state_weight(s[l].1) <= query_measure(s),
    decreases s.len(),
{
    lemma_counts_nonneg(s);
    if s.len() > 0 {
        if l == s.len() - 1 {
            lemma_counts_nonneg(s.drop_last());
        } else {
            lemma_member_counts(s.drop_last(), l);
        }
    }
}

/// With no waiting member the waiting count is zero.
pub proof fn lemma_no_waiting(s: Seq<(PublicKey, PeerState)>)
    requires
        forall|l: int| 0 <= l < s.len() ==> !((#[trigger] s[l]).1 is Waiting),
    ensures
        count_waiting(s) == 0,
    decreases s.len(),
{
    if s.len() > 0 {
        assert(forall|l: int|
            0 <= l < s.len() - 1 ==> !((#[trigger] s.drop_last()[l]).1 is Waiting));
        lemma_no_waiting(s.drop_last());
        assert(!(s[s.len() - 1].1 is Waiting));
    }
}

/// The first position in a closest-first candidate list whose node is
/// strictly farther from the target than `ekey`.
fn entries_insert_position(
    list: &Vec<(PublicKey, PeerState)>,
    ekey: &KadKey,
    tkey: &KadKey,
) -> (pos: usize)
    requires
        ekey.wf(),
        tkey.wf(),
    ensures
        0 <= pos <= list@.len(),
        forall|l: int|
            0 <= l < pos ==> !(xcmp_from(
                ekey@,
                node_key_spec((#[trigger] list@[l]).0),
                tkey@,
                0,
            ) is Less),
        pos < list@.len() ==> xcmp_from(ekey@, node_key_spec(list@[pos as int].0), tkey@, 0)
            is Less,
{
    let mut pos: usize = 0;
    while pos < list.len()
        invariant
            0 <= pos <= list@.len(),
            ekey.wf(),
            tkey.wf(),
            forall|l: int|
                0 <= l < pos ==> !(xcmp_from(
                    ekey@,
                    node_key_spec((#[trigger] list@[l]).0),
                    tkey@,
                    0,
                ) is Less),
        decreases list@.len() - pos,
    {
        let okey = node_key(&list[pos].0);
        let c = xor_distance_cmp(ekey, &okey, tkey);
        match c {
            core::cmp::Ordering::Less => {
                return pos;
            },
            _ => {},
        }
        pos += 1;
    }
    pos
}

/// Lists with the same ids at the same positions are equally sorted.
pub proof fn lemma_sorted_same_ids(
    s1: Seq<(PublicKey, PeerState)>,
    s2: Seq<(PublicKey, PeerState)>,
    t: Seq<u8>,
)
    requires
        s1.len() == s2.len(),
        forall|j: int| 0 <= j < s1.len() ==> (#[trigger] s1[j]).0 == s2[j].0,
        entries_sorted(s1, t),
    ensures
        entries_sorted(s2, t),
{
    assert forall|i: int, j: int| 0 <= i < j < s2.len() implies dist_lt(
        node_key_spec((#[trigger] s2[i]).0),
        node_key_spec((#[trigger] s2[j]).0),
        t,
    ) by {
        assert(s1[i].0 == s2[i].0);
        assert(s1[j].0 == s2[j].0);
        assert(dist_lt(node_key_spec(s1[i].0), node_key_spec(s1[j].0), t));
    }
}

/// An iterative lookup in progress.
pub struct QueryState {
    target: QueryTarget,
    /// Candidates, strictly closest-first.
    closest: Vec<(PublicKey, PeerState)>,
    /// Greatest number of requests in flight at once.
    parallelism: usize,
    /// Size of the result window.
    num_results: usize,
    /// How long one request may wait for its reply.
    rpc_timeout_ms: u64,
}

impl QueryState {
    /// The candidate list, strictly closest-first.
    pub closed spec fn entries(&self) -> Seq<(PublicKey, PeerState)> {
        self.closest@
    }

    /// The query's target.
    pub closed spec fn spec_target(&self) -> QueryTarget {
        self.target
    }

    /// The greatest number of requests in flight at once.
    pub closed spec fn spec_parallelism(&self) -> int {
        self.parallelism as int
    }

    /// The size of the result window.
    pub closed spec fn spec_num_results(&self) -> int {
        self.num_results as int
    }

    /// The invariant: candidates are strictly closest-first and at most
    /// `parallelism` of them are waiting for a reply.
    pub open spec fn wf(&self) -> bool {
        &&& self.spec_target().wf()
        &&& entries_sorted(self.entries(), target_hash(self.spec_target()))
        &&& count_waiting(self.entries()) <= self.spec_parallelism()
        &&& 1 <= self.spec_parallelism()
        &&& 1 <= self.spec_num_results()
    }

    /// The query's target.
    pub fn target(&self) -> (r: &QueryTarget)
        ensures
            *r == self.spec_target(),
    {
        &self.target
    }

    /// The position of a candidate, if it is one.
    fn position_of(&self, n: &PublicKey) -> (r: Option<usize>)
        ensures
            match r {
                Some(i) => i < self.entries().len() && self.entries()[i as int].0 == *n,
                None => forall|l: int|
                    0 <= l < self.entries().len() ==> (#[trigger] self.entries()[l]).0 != *n,
            },
    {
        let mut i: usize = 0;
        while i < self.closest.len()
            invariant
                0 <= i <= self.closest@.len(),
                forall|l: int| 0 <= l < i ==> (#[trigger] self.closest@[l]).0 != *n,
            decreases self.closest@.len() - i,
        {
            if self.closest[i].0.id == n.id {
                return Some(i);
            }
            i += 1;
        }
        None
    }

    /// Whether the query is waiting on this node.
    pub fn is_waiting(&self, n: &PublicKey) -> (r: bool)
        requires
            self.wf(),
        ensures
            r == exists|l: int|
                0 <= l < self.entries().len() && (#[trigger] self.entries()[l]).0 == *n
                    && self.entries()[l].1 is Waiting,
    {
        match self.position_of(n) {
            Some(i) => {
                let r = match self.closest[i].1 {
                    PeerState::Waiting(_) => true,
                    _ => false,
                };
                proof {
                    if r {
                        assert(self.entries()[i as int].0 == *n && self.entries()[i
                            as int].1 is Waiting);
                    } else {
                        assert forall|l: int|
                            0 <= l < self.entries().len() && (#[trigger] self.entries()[l]).0
                                == *n implies !(self.entries()[l].1 is Waiting) by {
                            if l != i {
                                let t = target_hash(self.spec_target());
                                let k = node_key_spec(self.entries()[l].0);
                                lemma_xcmp_refl(k, t, 0);
                                assert(false);
                            }
                        }
                    }
                }
                r
            },
            None => false,
        }
    }

    /// Starts a lookup from the given seed candidates, closest first.
    pub fn new(
        target: QueryTarget,
        parallelism: usize,
        num_results: usize,
        rpc_timeout_ms: u64,
        known_closest: &Vec<PublicKey>,
    ) -> (q: QueryState)
        requires
            target.wf(),
            parallelism >= 1,
            num_results >= 1,
            forall|i: int, j: int|
                0 <= i < j < known_closest@.len() ==> dist_lt(
                    node_key_spec(#[trigger] known_closest@[i]),
                    node_key_spec(#[trigger] known_closest@[j]),
                    target_hash(target),
                ),
        ensures
            q.wf(),
            q.spec_target() == target,
            q.spec_parallelism() == parallelism,
            q.spec_num_results() == num_results,
            q.entries().len() == known_closest@.len(),
            forall|l: int|
                0 <= l < q.entries().len() ==> (#[trigger] q.entries()[l]).0 == known_closest@[l]
                    && q.entries()[l].1 is NotContacted,
            count_waiting(q.entries()) == 0,
    {
        let mut closest: Vec<(PublicKey, PeerState)> = Vec::new();
        let mut i: usize = 0;
        while i < known_closest.len()
            invariant
                0 <= i <= known_closest@.len(),
                closest@.len() == i,
                forall|l: int|
                    0 <= l < i ==> (#[trigger] closest@[l]).0 == known_closest@[l] && closest@[
                        l
                    ].1 is NotContacted,
                count_waiting(closest@) == 0,
            decreases known_closest@.len() - i,
        {
            let ghost pre = closest@;
            let e = known_closest[i];
            closest.push((e, PeerState::NotContacted));
            proof {
                assert(closest@.drop_last() =~= pre);
            }
            i += 1;
        }
        let q = QueryState { target, closest, parallelism, num_results, rpc_timeout_ms };
        proof {
            assert(entries_sorted(q.entries(), target_hash(q.spec_target())));
        }
        q
    }

    /// The number of candidates waiting for a reply.
    fn count_waiting_exec(&self) -> (r: usize)
        ensures
            r == count_waiting(self.entries()),
    {
        let mut cnt: usize = 0;
        let mut i: usize = 0;
        while i < self.closest.len()
            invariant
                0 <= i <= self.closest@.len(),
                cnt == count_waiting(self.closest@.take(i as int)),
                cnt <= i,
            decreases self.closest@.len() - i,
        {
            proof {
                assert(self.closest@.take(i + 1).drop_last() =~= self.closest@.take(i as int));
                assert(self.closest@.take(i + 1).last() == self.closest@[i as int]);
            }
            match self.closest[i].1 {
                PeerState::Waiting(_) => {
                    cnt += 1;
                },
                _ => {},
            }
            i += 1;
        }
        proof {
            assert(self.closest@.take(self.closest@.len() as int) =~= self.closest@);
        }
        cnt
    }

    /// Adds an unknown candidate at its place in the closest-first order.
    fn insert_candidate(&mut self, e: &PublicKey)
        requires
            old(self).wf(),
            !has_entry(old(self).entries(), *e),
        ensures
            final(self).wf(),
            final(self).spec_target() == old(self).spec_target(),
            final(self).spec_parallelism() == old(self).spec_parallelism(),
            final(self).spec_num_results() == old(self).spec_num_results(),
            exists|k: int|
                0 <= k <= old(self).entries().len() && final(self).entries() == old(self).entries().insert(k, (*e, PeerState::NotContacted)),
            count_waiting(final(self).entries()) == count_waiting(old(self).entries()),
            query_measure(final(self).entries()) == query_measure(old(self).entries()) + 2,
    {
        let ghost t = target_hash(self.spec_target());
        let ghost pre = self.closest@;
        let ekey = node_key(e);
        let target_key = self.target.as_hash().duplicate();
        let pos = entries_insert_position(&self.closest, &ekey, &target_key);
        proof {
            // entries before the spot are strictly closer; the spot and
            // after are strictly farther
            assert forall|l: int| 0 <= l < pos implies dist_lt(
                node_key_spec((#[trigger] pre[l]).0),
                node_key_spec(*e),
                t,
            ) by {
                lemma_xcmp_flip(ekey@, node_key_spec(pre[l].0), t, 0);
                if xcmp_from(node_key_spec(pre[l].0), ekey@, t, 0) is Equal {
                    lemma_xcmp_eq(node_key_spec(pre[l].0), ekey@, t, 0);
                    assert(node_key_spec(pre[l].0) =~= node_key_spec(*e));
                    lemma_node_key_injective(pre[l].0, *e);
                    assert(pre[l].0 == *e);
                    assert(false);
                }
            }
        }
        let ghost posg = pos as int;
        self.closest.insert(pos, (*e, PeerState::NotContacted));
        proof {
            pre.insert_ensures(posg, (*e, PeerState::NotContacted));
            lemma_counts_insert(pre, posg, (*e, PeerState::NotContacted));
            let post = self.closest@;
            assert forall|i: int, j: int| 0 <= i < j < post.len() implies dist_lt(
                node_key_spec((#[trigger] post[i]).0),
                node_key_spec((#[trigger] post[j]).0),
                t,
            ) by {
                if i < posg && j < posg {
                    assert(post[i] == pre[i] && post[j] == pre[j]);
                } else if i < posg && j == posg {
                    assert(post[i] == pre[i]);
                } else if i < posg && j > posg {
                    assert(post[i] == pre[i] && post[j] == pre[j - 1]);
                } else if i == posg {
                    assert(post[j] == pre[j - 1]);
                    if posg < pre.len() {
                        if j - 1 > posg {
                            assert(dist_lt(
                                node_key_spec(pre[posg].0),
                                node_key_spec(pre[j - 1].0),
                                t,
                            ));
                            lemma_xcmp_trans(
                                ekey@,
                                node_key_spec(pre[posg].0),
                                node_key_spec(pre[j - 1].0),
                                t,
                                0,
                            );
                            assert(!(xcmp_from(ekey@, node_key_spec(pre[j - 1].0), t, 0)
                                is Greater));
                            if xcmp_from(ekey@, node_key_spec(pre[j - 1].0), t, 0) is Equal {
                                lemma_xcmp_eq(ekey@, node_key_spec(pre[j - 1].0), t, 0);
                                assert(node_key_spec(*e) =~= node_key_spec(pre[j - 1].0));
                                lemma_node_key_injective(*e, pre[j - 1].0);
                                assert(false);
                            }
                        }
                    }
                } else {
                    assert(post[i] == pre[i - 1] && post[j] == pre[j - 1]);
                }
            }
        }
    }

    /// Records a reply: the sender's request is settled as succeeded and
    /// the reported closer nodes become fresh candidates.
    pub fn inject_rpc_result(&mut self, from: &PublicKey, closer: &Vec<PublicKey>)
        requires
            old(self).wf(),
        ensures
            final(self).wf(),
            final(self).spec_target() == old(self).spec_target(),
            final(self).spec_parallelism() == old(self).spec_parallelism(),
            final(self).spec_num_results() == old(self).spec_num_results(),
            count_waiting(final(self).entries()) <= count_waiting(old(self).entries()),
            query_measure(final(self).entries()) <= query_measure(old(self).entries()) + 2
                * closer@.len(),
            forall|m: PublicKey|
                has_entry(final(self).entries(), m) ==> has_entry(old(self).entries(), m)
                    || closer@.contains(m),
            forall|m: PublicKey|
                has_entry(old(self).entries(), m) ==> has_entry(final(self).entries(), m),
            has_waiting(old(self).entries(), *from) ==> has_succeeded(
                final(self).entries(),
                *from,
            ),
            forall|i: int|
                0 <= i < closer@.len() ==> has_entry(final(self).entries(), #[trigger] closer@[i]),
    {
        let ghost t = target_hash(self.spec_target());
        match self.position_of(from) {
            Some(i) => {
                let w = match self.closest[i].1 {
                    PeerState::Waiting(_) => true,
                    _ => false,
                };
                if w {
                    let ghost pre = self.closest@;
                    let id = self.closest[i].0;
                    self.closest[i] = (id, PeerState::Succeeded);
                    proof {
                        lemma_counts_update(pre, i as int, (id, PeerState::Succeeded));
                        assert(forall|j: int|
                            0 <= j < pre.len() ==> (#[trigger] pre[j]).0 == self.closest@[j].0);
                        lemma_sorted_same_ids(pre, self.closest@, t);
                        lemma_counts_nonneg(self.closest@);
                        assert(self.closest@[i as int].0 == *from && self.closest@[i
                            as int].1 is Succeeded);
                    }
                }
            },
            None => {},
        }
        let ghost mid = self.closest@;
        proof {
            assert(mid.len() == old(self).entries().len());
            assert forall|j: int| 0 <= j < mid.len() implies (#[trigger] mid[j]).0 == old(self).entries()[j].0 by {}
            // a sender the query was waiting on is settled by now: its
            // entry is unique in the strictly sorted list
            if exists|l: int|
                0 <= l < old(self).entries().len() && (#[trigger] old(self).entries()[l]).0
                    == *from && old(self).entries()[l].1 is Waiting {
                let l = choose|l: int|
                    0 <= l < old(self).entries().len() && (#[trigger] old(self).entries()[l]).0
                        == *from && old(self).entries()[l].1 is Waiting;
                assert(mid[l].0 == *from && mid[l].1 is Succeeded) by {
                    lemma_xcmp_refl(node_key_spec(*from), t, 0);
                }
            }
        }
        proof {
            if exists|l: int|
                0 <= l < mid.len() && (#[trigger] mid[l]).0 == *from && mid[l].1 is Succeeded {
                let l = choose|l: int|
                    0 <= l < mid.len() && (#[trigger] mid[l]).0 == *from && mid[l].1 is Succeeded;
                assert(self.entries()[l].0 == *from && self.entries()[l].1 is Succeeded);
            }
        }
        let mut c: usize = 0;
        while c < closer.len()
            invariant
                0 <= c <= closer@.len(),
                self.wf(),
                self.spec_target() == old(self).spec_target(),
                self.spec_parallelism() == old(self).spec_parallelism(),
                self.spec_num_results() == old(self).spec_num_results(),
                count_waiting(self.entries()) == count_waiting(mid),
                query_measure(self.entries()) <= query_measure(mid) + 2 * c,
                (exists|l: int|
                    0 <= l < mid.len() && (#[trigger] mid[l]).0 == *from
                        && mid[l].1 is Succeeded) ==> exists|l: int|
                    0 <= l < self.entries().len() && (#[trigger] self.entries()[l]).0 == *from
                        && self.entries()[l].1 is Succeeded,
                forall|m: PublicKey|
                    has_entry(self.entries(), m) ==> has_entry(mid, m) || closer@.contains(m),
                forall|m: PublicKey| has_entry(mid, m) ==> has_entry(self.entries(), m),
                forall|i: int|
                    0 <= i < c ==> has_entry(self.entries(), #[trigger] closer@[i]),
            decreases closer@.len() - c,
        {
            let e = closer[c];
            let ghost preloop = self.entries();
            match self.position_of(&e) {
                Some(pi) => {
                    proof {
                        assert(self.entries()[pi as int].0 == e);
                        assert(has_entry(self.entries(), closer@[c as int]));
                    }
                },
                None => {
                    self.insert_candidate(&e);
                    proof {
                        let k = choose|k: int|
                            0 <= k <= preloop.len() && self.entries() == preloop.insert(
                                k,
                                (e, PeerState::NotContacted),
                            );
                        preloop.insert_ensures(k, (e, PeerState::NotContacted));
                        assert(closer@.contains(e)) by {
                            assert(closer@[c as int] == e);
                        }
                        assert forall|m: PublicKey|
                            has_entry(self.entries(), m) implies has_entry(mid, m)
                            || closer@.contains(m) by {
                            let l = choose|l: int|
                                0 <= l < self.entries().len() && self.entries()[l].0 == m;
                            if l < k {
                                assert(preloop[l].0 == m);
                            } else if l > k {
                                assert(preloop[l - 1].0 == m);
                            }
                        }
                        if exists|l2: int|
                            0 <= l2 < preloop.len() && (#[trigger] preloop[l2]).0 == *from
                                && preloop[l2].1 is Succeeded {
                            let l2 = choose|l2: int|
                                0 <= l2 < preloop.len() && (#[trigger] preloop[l2]).0 == *from
                                    && preloop[l2].1 is Succeeded;
                            if l2 < k {
                                assert(self.entries()[l2].0 == *from && self.entries()[
                                    l2
                                ].1 is Succeeded);
                            } else {
                                assert(self.entries()[l2 + 1].0 == *from && self.entries()[l2
                                    + 1].1 is Succeeded);
                            }
                        }
                        assert forall|m: PublicKey| has_entry(mid, m) implies has_entry(
                            self.entries(),
                            m,
                        ) by {
                            if has_entry(preloop, m) {
                                let l = choose|l: int|
                                    0 <= l < preloop.len() && preloop[l].0 == m;
                                if l < k {
                                    assert(self.entries()[l].0 == m);
                                } else {
                                    assert(self.entries()[l + 1].0 == m);
                                }
                            }
                        }
                        assert forall|i: int|
                            0 <= i < c + 1 implies has_entry(
                            self.entries(),
                            #[trigger] closer@[i],
                        ) by {
                            if i < c {
                                let l = choose|l: int|
                                    0 <= l < preloop.len() && preloop[l].0 == closer@[i];
                                if l < k {
                                    assert(self.entries()[l].0 == closer@[i]);
                                } else {
                                    assert(self.entries()[l + 1].0 == closer@[i]);
                                }
                            } else {
                                assert(self.entries()[k].0 == e);
                            }
                        }
                    }
                },
            }
            c += 1;
        }
        proof {
            assert forall|m: PublicKey| has_entry(old(self).entries(), m) implies has_entry(
                self.entries(),
                m,
            ) by {
                let l = choose|l: int|
                    0 <= l < old(self).entries().len() && old(self).entries()[l].0 == m;
                assert(mid[l].0 == m);
                assert(has_entry(mid, m));
            }
            assert forall|m: PublicKey| has_entry(self.entries(), m) implies has_entry(
                old(self).entries(),
                m,
            ) || closer@.contains(m) by {
                if has_entry(mid, m) {
                    let l = choose|l: int| 0 <= l < mid.len() && mid[l].0 == m;
                    assert(old(self).entries()[l].0 == m);
                }
            }
        }
    }

    /// Drives the query one step at time `now`.  Candidates whose reply
    /// deadline has passed are settled as failed.  The query finishes when
    /// every candidate in the result window is settled and no request
    /// remains in flight; a request still in flight beyond a settled
    /// window is cancelled first.  Otherwise, while fewer than
    /// `parallelism` requests are in flight, the closest uncontacted
    /// candidate in the window is dispatched.  Every step other than
    /// a quiet one strictly lowers the query's remaining work, and a quiet
    /// step means a request is in flight, so a query with bounded
    /// candidates reaches `Finished` in a bounded number of steps.
    #[verifier::rlimit(60)]
    pub fn poll(&mut self, now: u64) -> (r: QueryStep)
        requires
            old(self).wf(),
        ensures
            final(self).wf(),
            final(self).spec_target() == old(self).spec_target(),
            final(self).spec_parallelism() == old(self).spec_parallelism(),
            final(self).spec_num_results() == old(self).spec_num_results(),
            final(self).entries().len() == old(self).entries().len(),
            forall|l: int|
                0 <= l < old(self).entries().len() ==> (#[trigger] final(self).entries()[l]).0
                    == old(self).entries()[l].0,
            query_measure(final(self).entries()) <= query_measure(old(self).entries()),
            match r {
                QueryStep::SendRpc { node_id } => {
                    &&& query_measure(final(self).entries()) < query_measure(old(self).entries())
                    &&& exists|l: int|
                        0 <= l < final(self).entries().len() && (#[trigger] final(self).entries()[l]).0 == node_id && final(self).entries()[l].1 is Waiting
                            && old(self).entries()[l].1 is NotContacted && l < final(self).spec_num_results()
                },
                QueryStep::CancelRpc { node_id } => {
                    &&& query_measure(final(self).entries()) < query_measure(old(self).entries())
                    &&& exists|l: int|
                        0 <= l < final(self).entries().len() && (#[trigger] final(self).entries()[l]).0 == node_id && final(self).entries()[l].1 is Failed && old(self).entries()[l].1 is Waiting
                },
                QueryStep::Finished => {
                    &&& count_waiting(final(self).entries()) == 0
                    &&& forall|l: int|
                        0 <= l < final(self).entries().len() && l < final(self).spec_num_results()
                            ==> !((#[trigger] final(self).entries()[l]).1 is NotContacted) && !(
                        final(self).entries()[l].1 is Waiting)
                },
                QueryStep::NotReady => count_waiting(final(self).entries()) > 0 && (
                count_waiting(final(self).entries()) == final(self).spec_parallelism() || forall|
                    x: int,
                |
                    0 <= x < final(self).entries().len() && x < final(self).spec_num_results()
                        ==> !((#[trigger] final(self).entries()[x]).1 is NotContacted)),
            },
            query_measure(old(self).entries()) == 0 ==> r is Finished,
    {
        let ghost t = target_hash(self.spec_target());
        let ghost orig = self.closest@;
        let n = self.closest.len();
        // settle candidates whose reply deadline has passed
        let mut i: usize = 0;
        while i < n
            invariant
                0 <= i <= n,
                n == self.closest@.len(),
                n == orig.len(),
                self.spec_target() == old(self).spec_target(),
                self.spec_parallelism() == old(self).spec_parallelism(),
                self.spec_num_results() == old(self).spec_num_results(),
                t == target_hash(self.spec_target()),
                self.wf(),
                forall|l: int| 0 <= l < n ==> (#[trigger] self.closest@[l]).0 == orig[l].0,
                forall|l: int|
                    0 <= l < n ==> (#[trigger] self.closest@[l]).1 == orig[l].1 || (orig[
                        l
                    ].1 is Waiting && self.closest@[l].1 is Failed),
                count_waiting(self.closest@) <= count_waiting(orig),
                query_measure(self.closest@) <= query_measure(orig),
                query_measure(orig) == 0 ==> self.closest@ == orig,
            decreases n - i,
        {
            let expired = match self.closest[i].1 {
                PeerState::Waiting(d) => d <= now,
                _ => false,
            };
            if expired {
                let ghost pre = self.closest@;
                let id = self.closest[i].0;
                self.closest[i] = (id, PeerState::Failed);
                proof {
                    lemma_counts_update(pre, i as int, (id, PeerState::Failed));
                    lemma_sorted_same_ids(pre, self.closest@, t);
                    lemma_counts_nonneg(self.closest@);
                    if query_measure(orig) == 0 {
                        lemma_member_counts(orig, i as int);
                    }
                }
            }
            i += 1;
        }
        let ghost mid = self.closest@;
        // examine the result window
        let w = if self.num_results < n {
            self.num_results
        } else {
            n
        };
        let mut nc_pos: usize = n;
        let mut window_waiting = false;
        let mut l: usize = 0;
        while l < w
            invariant
                0 <= l <= w <= n,
                n == self.closest@.len(),
                self.closest@ == mid,
                nc_pos == n || (nc_pos < l && self.closest@[nc_pos as int].1 is NotContacted
                    && nc_pos < w),
                window_waiting ==> exists|x: int|
                    0 <= x < l && (#[trigger] self.closest@[x]).1 is Waiting,
                !window_waiting ==> forall|x: int|
                    0 <= x < l ==> !((#[trigger] self.closest@[x]).1 is Waiting),
                nc_pos == n ==> forall|x: int|
                    0 <= x < l ==> !((#[trigger] self.closest@[x]).1 is NotContacted),
            decreases w - l,
        {
            match self.closest[l].1 {
                PeerState::NotContacted => {
                    if nc_pos == n {
                        nc_pos = l;
                    }
                },
                PeerState::Waiting(_) => {
                    window_waiting = true;
                },
                _ => {},
            }
            l += 1;
        }
        if nc_pos == n && !window_waiting {
            // the window is settled: cancel any stray request, else finish
            let mut j: usize = 0;
            while j < n
                invariant
                    0 <= j <= n,
                    n == self.closest@.len(),
                    n == orig.len(),
                    orig == old(self).entries(),
                    self.closest@ == mid,
                    self.wf(),
                    self.spec_target() == old(self).spec_target(),
                    self.spec_parallelism() == old(self).spec_parallelism(),
                    self.spec_num_results() == old(self).spec_num_results(),
                    t == target_hash(self.spec_target()),
                    w <= n,
                    w == if self.spec_num_results() < n {
                        self.spec_num_results()
                    } else {
                        n as int
                    },
                    forall|l: int| 0 <= l < n ==> (#[trigger] self.closest@[l]).0 == orig[l].0,
                    forall|l: int|
                        0 <= l < n ==> (#[trigger] self.closest@[l]).1 == orig[l].1 || (orig[
                            l
                        ].1 is Waiting && self.closest@[l].1 is Failed),
                    count_waiting(self.closest@) <= count_waiting(orig),
                    query_measure(self.closest@) <= query_measure(orig),
                    query_measure(orig) == 0 ==> self.closest@ == orig,
                    forall|x: int|
                        0 <= x < w ==> !((#[trigger] mid[x]).1 is NotContacted) && !(mid[
                            x
                        ].1 is Waiting),
                    forall|x: int| 0 <= x < j ==> !((#[trigger] self.closest@[x]).1 is Waiting),
                decreases n - j,
            {
                let waiting = match self.closest[j].1 {
                    PeerState::Waiting(_) => true,
                    _ => false,
                };
                if waiting {
                    let ghost pre = self.closest@;
                    let id = self.closest[j].0;
                    self.closest[j] = (id, PeerState::Failed);
                    proof {
                        lemma_counts_update(pre, j as int, (id, PeerState::Failed));
                        lemma_sorted_same_ids(pre, self.closest@, t);
                        lemma_counts_nonneg(self.closest@);
                        if query_measure(orig) == 0 {
                            lemma_member_counts(mid, j as int);
                        }
                        assert(orig[j as int].1 is Waiting);
                        assert(self.closest@[j as int].0 == id && self.closest@[j
                            as int].1 is Failed);
                        lemma_member_counts(mid, j as int);
                        lemma_counts_nonneg(mid);
                    }
                    return QueryStep::CancelRpc { node_id: id };
                }
                j += 1;
            }
            proof {
                lemma_no_waiting(self.closest@);
            }
            return QueryStep::Finished;
        }
        if nc_pos < n {
            let cw = self.count_waiting_exec();
            if cw < self.parallelism {
                let ghost pre = self.closest@;
                let id = self.closest[nc_pos].0;
                let deadline = if now > u64::MAX - self.rpc_timeout_ms {
                    u64::MAX
                } else {
                    now + self.rpc_timeout_ms
                };
                self.closest[nc_pos] = (id, PeerState::Waiting(deadline));
                proof {
                    lemma_counts_update(pre, nc_pos as int, (id, PeerState::Waiting(deadline)));
                    lemma_sorted_same_ids(pre, self.closest@, t);
                    if query_measure(orig) == 0 {
                        lemma_member_counts(mid, nc_pos as int);
                    }
                }
                return QueryStep::SendRpc { node_id: id };
            }
        }
        proof {
            if query_measure(orig) == 0 {
                if nc_pos < n {
                    lemma_member_counts(mid, nc_pos as int);
                } else {
                    let x = choose|x: int| 0 <= x < w && (#[trigger] mid[x]).1 is Waiting;
                    lemma_member_counts(mid, x);
                }
                assert(false);
            }
            if nc_pos == n {
                let x = choose|x: int| 0 <= x < w && (#[trigger] mid[x]).1 is Waiting;
                lemma_member_counts(mid, x);
            } else {
                lemma_counts_nonneg(mid);
            }
        }
        QueryStep::NotReady
    }

    /// The settled result: the up to `num_results` closest candidates that
    /// answered, closest first.
    pub fn into_closest_peers(&self) -> (r: Vec<PublicKey>)
        requires
            self.wf(),
        ensures
            r@.len() <= self.spec_num_results(),
            forall|i: int| #![trigger r@[i]]
                0 <= i < r@.len() ==> exists|l: int|
                    0 <= l < self.entries().len() && (#[trigger] self.entries()[l]).0 == r@[i]
                        && self.entries()[l].1 is Succeeded,
            forall|i: int, j: int|
                0 <= i < j < r@.len() ==> dist_lt(
                    node_key_spec(#[trigger] r@[i]),
                    node_key_spec(#[trigger] r@[j]),
                    target_hash(self.spec_target()),
                ),
            forall|i: int, j: int| 0 <= i < j < r@.len() ==> r@[i] != r@[j],
    {
        let ghost t = target_hash(self.spec_target());
        let mut out: Vec<PublicKey> = Vec::new();
        let mut l: usize = 0;
        let ghost mut g_idxs: Seq<int> = Seq::empty();
        while l < self.closest.len()
            invariant
                0 <= l <= self.closest@.len(),
                self.wf(),
                t == target_hash(self.spec_target()),
                out@.len() == g_idxs.len(),
                out@.len() <= self.spec_num_results(),
                forall|p: int|
                    0 <= p < out@.len() ==> 0 <= #[trigger] g_idxs[p] < l
                        && self.closest@[g_idxs[p]].0 == out@[p] && self.closest@[
                        g_idxs[p]
                    ].1 is Succeeded,
                forall|p: int, q: int|
                    0 <= p < q < out@.len() ==> g_idxs[p] < g_idxs[q],
            decreases self.closest@.len() - l,
        {
            if out.len() >= self.num_results {
                break ;
            }
            let succeeded = match self.closest[l].1 {
                PeerState::Succeeded => true,
                _ => false,
            };
            if succeeded {
                let id = self.closest[l].0;
                out.push(id);
                proof {
                    g_idxs = g_idxs.push(l as int);
                }
            }
            l += 1;
        }
        proof {
            assert forall|i: int, j: int| 0 <= i < j < out@.len() implies dist_lt(
                node_key_spec(#[trigger] out@[i]),
                node_key_spec(#[trigger] out@[j]),
                t,
            ) by {
                let li = g_idxs[i];
                let lj = g_idxs[j];
                assert(self.closest@[li].0 == out@[i]);
                assert(self.closest@[lj].0 == out@[j]);
            }
            assert forall|i: int, j: int| 0 <= i < j < out@.len() implies out@[i] != out@[j] by {
                lemma_xcmp_refl(node_key_spec(out@[i]), t, 0);
            }
            assert forall|i: int| #![trigger out@[i]] 0 <= i < out@.len() implies exists|l2: int|
                0 <= l2 < self.entries().len() && (#[trigger] self.entries()[l2]).0 == out@[i]
                    && self.entries()[l2].1 is Succeeded by {
                let li = g_idxs[i];
                assert(self.entries()[li].0 == out@[i] && self.entries()[li].1 is Succeeded);
            }
        }
        out
    }

    /// Records a failure: the node's request, if one is in flight, is
    /// settled as failed.
    pub fn inject_rpc_error(&mut self, n: &PublicKey)
        requires
            old(self).wf(),
        ensures
            final(self).wf(),
            final(self).spec_target() == old(self).spec_target(),
            final(self).spec_parallelism() == old(self).spec_parallelism(),
            final(self).spec_num_results() == old(self).spec_num_results(),
            final(self).entries().len() == old(self).entries().len(),
            forall|l: int|
                0 <= l < old(self).entries().len() ==> (#[trigger] final(self).entries()[l]).0
                    == old(self).entries()[l].0,
            forall|l: int|
                0 <= l < old(self).entries().len() ==> final(self).entries()[l].1 == old(self).entries()[l].1 || (old(self).entries()[l].1 is Waiting && final(self).entries()[l].1 is Failed),
            failed_only(old(self).entries(), final(self).entries(), *n),
            count_waiting(final(self).entries()) <= count_waiting(old(self).entries()),
            query_measure(final(self).entries()) <= query_measure(old(self).entries()),
    {
        let ghost t = target_hash(self.spec_target());
        match self.position_of(n) {
            Some(i) => {
                proof {
                    assert forall|e: int|
                        0 <= e < self.closest@.len() && (#[trigger] self.closest@[e]).0
                            == *n implies e == i as int by {
                        if e != i as int {
                            assert(dist_lt(node_key_spec(*n), node_key_spec(*n), t));
                            lemma_xcmp_refl(node_key_spec(*n), t, 0);
                        }
                    };
                }
                let w = match self.closest[i].1 {
                    PeerState::Waiting(_) => true,
                    _ => false,
                };
                if w {
                    let ghost pre = self.closest@;
                    let id = self.closest[i].0;
                    self.closest[i] = (id, PeerState::Failed);
                    proof {
                        lemma_counts_update(pre, i as int, (id, PeerState::Failed));
                        assert(forall|j: int|
                            0 <= j < pre.len() ==> (#[trigger] pre[j]).0 == self.closest@[j].0);
                        lemma_sorted_same_ids(pre, self.closest@, t);
                        lemma_counts_nonneg(self.closest@);
                        assert(failed_only(pre, self.closest@, *n));
                    }
                }
            },
            None => {},
        }
        proof {
            assert(failed_only(old(self).entries(), self.entries(), *n));
        }
    }
}

} // verus!
