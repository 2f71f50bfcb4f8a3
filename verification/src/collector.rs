//! View-change collection: the liveness layer of consensus.
//!
//! When the elected leader stalls, every validator signs a vote over the
//! current chain tip.  The collector accumulates such votes for the current
//! `(height, view_change)` and, once the voted stake passes a supermajority
//! of the total stake, aggregates the votes into a proof that lets the next
//! leader skip the stalled one.

use crate::chain::{
    check_supermajority, is_supermajority, stake_total, ChainInfo, ChainView, ValidatorId,
    chain_info_digest,
};
use crate::crypto::{
    check_hash, multisig_valid, pkey_of, sig_valid, sign_hash, AggregateSignature, Digest,
    PublicKey, SecretKey, Signature,
};
use vstd::prelude::*;

verus! {

/// Why a view-change vote was rejected.  Each variant carries the offending
/// value and, where useful, the value that was expected.
#[derive(Clone, Copy, Debug, PartialEq, Eq, Structural)]
pub enum ConsensusError {
    InvalidValidatorId(ValidatorId),
    InvalidViewChangeSignature,
    InvalidViewChangeHeight(u64, u64),
    InvalidLastBlockHash(Digest, Digest),
    InvalidViewChangeCounter(u32, u32),
}

/// One validator's signed vote over a chain tip.
#[derive(Clone, Copy, Debug, PartialEq, Eq, Structural)]
pub struct ViewChangeMessage {
    pub chain: ChainInfo,
    pub validator_id: ValidatorId,
    pub signature: Signature,
}

/// A vote is valid for a validator list when its author index is in range
/// and its signature covers the digest of the voted tip under that
/// validator's key.
pub open spec fn msg_valid(msg: ViewChangeMessage, validators: Seq<(PublicKey, i64)>) -> bool {
    &&& (msg.validator_id as int) < validators.len()
    &&& sig_valid(
        msg.signature,
        chain_info_digest(msg.chain),
        validators[msg.validator_id as int].0,
    )
}

impl ViewChangeMessage {
    /// Signs a vote over `chain` on behalf of validator `validator_id`.
    pub fn new(chain: ChainInfo, validator_id: ValidatorId, skey: &SecretKey) -> (msg:
        ViewChangeMessage)
        ensures
            msg.chain == chain,
            msg.validator_id == validator_id,
            sig_valid(msg.signature, chain_info_digest(chain), pkey_of(*skey)),
    {
        let hash = chain.digest();
        let signature = sign_hash(&hash, skey);
        ViewChangeMessage { chain, validator_id, signature }
    }

    /// Checks that the author index exists and that the signature verifies
    /// under the author's key.
    pub fn validate(&self, chain: &ChainView) -> (r: Result<(), ConsensusError>)
        ensures
            r is Ok <==> msg_valid(*self, chain.validators@),
            r is Err ==> (self.validator_id as int) >= chain.validators@.len() ==> r == Result::<
                (),
                ConsensusError,
            >::Err(ConsensusError::InvalidValidatorId(self.validator_id)),
            r is Err && (self.validator_id as int) < chain.validators@.len() ==> r == Result::<
                (),
                ConsensusError,
            >::Err(ConsensusError::InvalidViewChangeSignature),
    {
        let validator_id = self.validator_id;
        if (validator_id as usize) >= chain.validators.len() {
            return Err(ConsensusError::InvalidValidatorId(validator_id));
        }
        let hash = self.chain.digest();
        let author = chain.validators[validator_id as usize].0;
        if !check_hash(&hash, &self.signature, &author) {
            return Err(ConsensusError::InvalidViewChangeSignature);
        }
        Ok(())
    }
}

/// Which key ids an index bitmap selects from a validator list, in index
/// order.
pub open spec fn selected_signers(validators: Seq<(PublicKey, i64)>, bm: Seq<bool>) -> Seq<u64>
    decreases bm.len(),
{
    if bm.len() == 0 {
        Seq::empty()
    } else if bm.last() {
        selected_signers(validators, bm.drop_last()).push(validators[bm.len() - 1].0.id)
    } else {
        selected_signers(validators, bm.drop_last())
    }
}

/// The summed stake of the validators an index bitmap selects.
pub open spec fn selected_stake(validators: Seq<(PublicKey, i64)>, bm: Seq<bool>) -> int
    decreases bm.len(),
{
    if bm.len() == 0 {
        0
    } else if bm.last() {
        selected_stake(validators, bm.drop_last()) + validators[bm.len() - 1].1
    } else {
        selected_stake(validators, bm.drop_last())
    }
}

/// Aggregate witness that a supermajority voted to skip the current leader:
/// a bitmap over the validator list marking the contributors, and the
/// combined signature of exactly those contributors.
#[derive(Clone, Debug)]
pub struct ViewChangeProof {
    pub multisig: AggregateSignature,
    pub multimap: Vec<bool>,
}

/// A proof is valid for a tip `c` against a validator list when the bitmap
/// spans the list, the combined signature is exactly the aggregate of the
/// selected validators' signatures over the digest of `c`, and the selected
/// stake is a supermajority of `total`.
pub open spec fn proof_valid(
    proof: ViewChangeProof,
    c: ChainInfo,
    validators: Seq<(PublicKey, i64)>,
    total: int,
) -> bool {
    &&& proof.multimap@.len() == validators.len()
    &&& multisig_valid(
        proof.multisig,
        chain_info_digest(c),
        selected_signers(validators, proof.multimap@),
    )
    &&& is_supermajority(selected_stake(validators, proof.multimap@), total)
}

/// Compares two key-id lists element by element.
fn u64_seq_eq(a: &Vec<u64>, b: &Vec<u64>) -> (r: bool)
    ensures
        r == (a@ == b@),
{
    if a.len() != b.len() {
        return false;
    }
    let mut i: usize = 0;
    while i < a.len()
        invariant
            0 <= i <= a@.len(),
            a@.len() == b@.len(),
            forall|l: int| 0 <= l < i ==> a@[l] == b@[l],
        decreases a@.len() - i,
    {
        if a[i] != b[i] {
            return false;
        }
        i += 1;
    }
    proof {
        assert(a@ =~= b@);
    }
    true
}

impl ViewChangeProof {
    /// Checks the proof against a tip identity and the current validator
    /// set: the bitmap must span the set, the combined signature must be the
    /// aggregate of exactly the selected validators' votes over the tip's
    /// digest, and the selected stake must be a supermajority.
    pub fn validate(&self, c: &ChainInfo, chain: &ChainView) -> (r: bool)
        requires
            chain.wf(),
        ensures
            r == proof_valid(*self, *c, chain.validators@, chain.total_slots as int),
    {
        let ghost vals = chain.validators@;
        let n = chain.validators.len();
        if self.multimap.len() != n {
            return false;
        }
        let mut expected: Vec<u64> = Vec::new();
        let mut stake: i64 = 0;
        let mut i: usize = 0;
        while i < n
            invariant
                0 <= i <= n,
                n == vals.len(),
                vals == chain.validators@,
                chain.wf(),
                self.multimap@.len() == n,
                expected@ == selected_signers(vals, self.multimap@.take(i as int)),
                stake == selected_stake(vals, self.multimap@.take(i as int)),
                0 <= stake <= stake_total(vals.take(i as int)),
            decreases n - i,
        {
            proof {
                assert(self.multimap@.take(i + 1).drop_last() =~= self.multimap@.take(i as int));
                assert(self.multimap@.take(i + 1).last() == self.multimap@[i as int]);
                crate::chain::lemma_stake_take_succ(vals, i as int);
                crate::chain::lemma_stake_take_mono(vals, i as int, i + 1);
                crate::chain::lemma_stake_take_mono(vals, i + 1, n as int);
                assert(vals.take(n as int) =~= vals);
            }
            if self.multimap[i] {
                expected.push(chain.validators[i].0.id);
                stake = stake + chain.validators[i].1;
            }
            i += 1;
        }
        proof {
            assert(self.multimap@.take(n as int) =~= self.multimap@);
            assert(vals.take(n as int) =~= vals);
            crate::chain::lemma_total_nonneg(chain);
        }
        let digest = c.digest();
        if self.multisig.hash != digest {
            return false;
        }
        if !u64_seq_eq(&self.multisig.signers, &expected) {
            return false;
        }
        check_supermajority(stake, chain.total_slots)
    }
}

/// A view-change proof together with the tip it witnesses.
#[derive(Clone, Debug)]
pub struct SealedViewChangeProof {
    pub chain: ChainInfo,
    pub proof: ViewChangeProof,
}

/// Summed stake of the authors of a vote list.
pub open spec fn msgs_stake(
    msgs: Seq<ViewChangeMessage>,
    validators: Seq<(PublicKey, i64)>,
) -> int
    decreases msgs.len(),
{
    if msgs.len() == 0 {
        0
    } else {
        msgs_stake(msgs.drop_last(), validators) + validators[msgs.last().validator_id as int].1
    }
}

/// Whether some vote in the list was cast by validator `id`.
pub open spec fn contains_id(msgs: Seq<ViewChangeMessage>, id: int) -> bool {
    exists|k: int| 0 <= k < msgs.len() && msgs[k].validator_id == id
}

/// Votes listed in strictly ascending author order (so each validator
/// appears at most once).
pub open spec fn msgs_sorted(msgs: Seq<ViewChangeMessage>) -> bool {
    forall|i: int, j: int|
        0 <= i < j < msgs.len() ==> #[trigger] msgs[i].validator_id < #[trigger] msgs[
            j
        ].validator_id
}

/// Extending a vote-list prefix by one vote adds its author's stake to the
/// prefix sum.
pub proof fn lemma_msgs_stake_take_succ(
    msgs: Seq<ViewChangeMessage>,
    validators: Seq<(PublicKey, i64)>,
    j: int,
)
    requires
        0 <= j < msgs.len(),
    ensures
        msgs_stake(msgs.take(j + 1), validators) == msgs_stake(msgs.take(j), validators)
            + validators[msgs[j].validator_id as int].1,
{
    assert(msgs.take(j + 1).drop_last() =~= msgs.take(j));
    assert(msgs.take(j + 1).last() == msgs[j]);
}

/// Inserting a vote anywhere in a list adds its author's stake to the sum.
pub proof fn lemma_msgs_stake_insert(
    msgs: Seq<ViewChangeMessage>,
    validators: Seq<(PublicKey, i64)>,
    k: int,
    m: ViewChangeMessage,
)
    requires
        0 <= k <= msgs.len(),
    ensures
        msgs_stake(msgs.insert(k, m), validators) == msgs_stake(msgs, validators) + validators[
            m.validator_id as int
        ].1,
    decreases msgs.len(),
{
    let ins = msgs.insert(k, m);
    msgs.insert_ensures(k, m);
    if k == msgs.len() {
        assert(ins.drop_last() =~= msgs);
        assert(ins.last() == m);
    } else {
        assert(ins.last() == msgs.last());
        assert(ins.drop_last() =~= msgs.drop_last().insert(k, m)) by {
            msgs.drop_last().insert_ensures(k, m);
        }
        lemma_msgs_stake_insert(msgs.drop_last(), validators, k, m);
    }
}

/// The summed stake of votes with distinct authors below `bound` is at most
/// the total stake of the first `bound` validators, and non-negative.
pub proof fn lemma_msgs_stake_bound(
    msgs: Seq<ViewChangeMessage>,
    validators: Seq<(PublicKey, i64)>,
    bound: int,
)
    requires
        msgs_sorted(msgs),
        forall|i: int| 0 <= i < msgs.len() ==> (#[trigger] msgs[i]).validator_id < bound,
        0 <= bound <= validators.len(),
        forall|i: int| 0 <= i < validators.len() ==> 0 <= #[trigger] validators[i].1,
    ensures
        0 <= msgs_stake(msgs, validators) <= stake_total(validators.take(bound)),
    decreases msgs.len(),
{
    crate::chain::lemma_stake_take_mono(validators, 0, bound);
    assert(validators.take(0) =~= Seq::<(PublicKey, i64)>::empty());
    if msgs.len() > 0 {
        let l = msgs.last().validator_id as int;
        assert(forall|i: int|
            0 <= i < msgs.len() - 1 ==> (#[trigger] msgs.drop_last()[i]).validator_id
                < msgs.last().validator_id);
        lemma_msgs_stake_bound(msgs.drop_last(), validators, l);
        crate::chain::lemma_stake_take_succ(validators, l);
        crate::chain::lemma_stake_take_mono(validators, l + 1, bound);
    }
}

/// Position of the first vote whose author index is not below `id`.
fn vote_position(msgs: &Vec<ViewChangeMessage>, id: ValidatorId) -> (pos: usize)
    requires
        msgs_sorted(msgs@),
    ensures
        0 <= pos <= msgs@.len(),
        forall|l: int| 0 <= l < pos ==> (#[trigger] msgs@[l]).validator_id < id,
        forall|l: int| pos <= l < msgs@.len() ==> (#[trigger] msgs@[l]).validator_id >= id,
{
    let mut pos: usize = 0;
    while pos < msgs.len() && msgs[pos].validator_id < id
        invariant
            0 <= pos <= msgs@.len(),
            msgs_sorted(msgs@),
            forall|l: int| 0 <= l < pos ==> (#[trigger] msgs@[l]).validator_id < id,
        decreases msgs@.len() - pos,
    {
        pos += 1;
    }
    proof {
        assert forall|l: int| pos <= l < msgs@.len() implies (#[trigger] msgs@[l]).validator_id
            >= id by {
            if l > pos {
                assert(msgs@[pos as int].validator_id < msgs@[l].validator_id);
            }
        }
    }
    pos
}

/// Collects view-change votes for the current chain tip and aggregates them
/// into a proof once a supermajority of stake has voted.
pub struct ViewChangeCollector {
    /// Accepted votes for the current `(height, view_change)`, in strictly
    /// ascending author order.
    actual_view_changes: Vec<ViewChangeMessage>,
    /// Summed stake of the authors of the accepted votes.
    collected_slots: i64,
    /// This node's index in the current validator set; `None` makes the
    /// collector passive.
    validator_id: Option<ValidatorId>,
    pkey: PublicKey,
    skey: SecretKey,
}

impl ViewChangeCollector {
    /// The accepted votes.
    pub closed spec fn msgs(&self) -> Seq<ViewChangeMessage> {
        self.actual_view_changes@
    }

    /// The accumulated stake.
    pub closed spec fn collected(&self) -> int {
        self.collected_slots as int
    }

    /// This node's validator index, if it is a validator.
    pub closed spec fn spec_validator_id(&self) -> Option<ValidatorId> {
        self.validator_id
    }

    /// This node's public key.
    pub closed spec fn spec_pkey(&self) -> PublicKey {
        self.pkey
    }

    /// This node's secret key.
    pub closed spec fn spec_skey(&self) -> SecretKey {
        self.skey
    }

    /// The collector's invariant relative to the chain view it is driven
    /// with: votes are unique per author, valid, and all cast over the
    /// current tip; the accumulated stake is exactly the authors' summed
    /// stake and has not yet reached a supermajority; a passive collector
    /// holds no votes; and the stored validator index really is this node's.
    pub open spec fn wf(&self, chain: &ChainView) -> bool {
        &&& msgs_sorted(self.msgs())
        &&& forall|i: int|
            0 <= i < self.msgs().len() ==> #[trigger] msg_valid(self.msgs()[i], chain.validators@)
        &&& forall|i: int|
            0 <= i < self.msgs().len() ==> (#[trigger] self.msgs()[i]).chain.height == chain.height
                && self.msgs()[i].chain.last_block == chain.last_block && self.msgs()[
                i
            ].chain.view_change == chain.view_change
        &&& self.collected() == msgs_stake(self.msgs(), chain.validators@)
        &&& !is_supermajority(self.collected(), chain.total_slots as int)
        &&& 0 <= self.collected() <= chain.total_slots
        &&& match self.spec_validator_id() {
            Some(id) => (id as int) < chain.validators@.len() && chain.validators@[
                id as int
            ].0 == self.spec_pkey(),
            None => self.msgs().len() == 0 && self.collected() == 0,
        }
    }

    /// Whether this node is an active validator for the current epoch.
    pub fn is_validator(&self) -> (r: bool)
        ensures
            r == self.spec_validator_id() is Some,
    {
        self.validator_id.is_some()
    }

    /// Drops all accepted votes and the accumulated stake.
    fn reset(&mut self)
        ensures
            final(self).msgs().len() == 0,
            final(self).collected() == 0,
            final(self).spec_validator_id() == old(self).spec_validator_id(),
            final(self).spec_pkey() == old(self).spec_pkey(),
            final(self).spec_skey() == old(self).spec_skey(),
    {
        self.actual_view_changes = Vec::new();
        self.collected_slots = 0;
    }

    /// Recomputes this node's validator index at an epoch change (the first
    /// list position holding this node's key, if any) and drops all
    /// accumulated votes.
    pub fn on_new_consensus(&mut self, chain: &ChainView)
        requires
            chain.wf(),
        ensures
            final(self).msgs().len() == 0,
            final(self).collected() == 0,
            final(self).spec_pkey() == old(self).spec_pkey(),
            final(self).spec_skey() == old(self).spec_skey(),
            final(self).wf(chain),
            match final(self).spec_validator_id() {
                Some(id) => (id as int) < chain.validators@.len() && chain.validators@[
                    id as int
                ].0 == old(self).spec_pkey() && forall|j: int|
                    0 <= j < id ==> (#[trigger] chain.validators@[j]).0 != old(self).spec_pkey(),
                None => forall|j: int|
                    0 <= j < chain.validators@.len() ==> (#[trigger] chain.validators@[j]).0 != old(self).spec_pkey(),
            },
    {
        let n = chain.validators.len();
        let mut validator_id: Option<ValidatorId> = None;
        let mut i: usize = 0;
        while i < n && validator_id.is_none()
            invariant
                0 <= i <= n,
                n == chain.validators@.len(),
                n <= 0xFFFF_FFFF,
                self.pkey == old(self).spec_pkey(),
                match validator_id {
                    Some(id) => (id as int) < n && chain.validators@[id as int].0 == self.pkey
                        && forall|j: int|
                        0 <= j < id ==> (#[trigger] chain.validators@[j]).0 != self.pkey,
                    None => forall|j: int|
                        0 <= j < i ==> (#[trigger] chain.validators@[j]).0 != self.pkey,
                },
            decreases n - i + (if validator_id is None { 1int } else { 0int }),
        {
            if chain.validators[i].0.id == self.pkey.id {
                validator_id = Some(i as ValidatorId);
            } else {
                i += 1;
            }
        }
        self.reset();
        self.validator_id = validator_id;
        proof {
            crate::chain::lemma_stake_total_prefix(
                chain.validators@,
                chain.validators@.len() as int,
            );
            assert(chain.validators@.take(chain.validators@.len() as int) =~= chain.validators@);
        }
    }

    /// Creates a collector for the given chain view and key pair.
    pub fn new(chain: &ChainView, pkey: PublicKey, skey: SecretKey) -> (c: ViewChangeCollector)
        requires
            chain.wf(),
        ensures
            c.msgs().len() == 0,
            c.collected() == 0,
            c.spec_pkey() == pkey,
            c.spec_skey() == skey,
            c.wf(chain),
            match c.spec_validator_id() {
                Some(id) => (id as int) < chain.validators@.len() && chain.validators@[
                    id as int
                ].0 == pkey && forall|j: int|
                    0 <= j < id ==> (#[trigger] chain.validators@[j]).0 != pkey,
                None => forall|j: int|
                    0 <= j < chain.validators@.len() ==> (#[trigger] chain.validators@[j]).0
                        != pkey,
            },
    {
        let mut collector = ViewChangeCollector {
            pkey,
            skey,
            collected_slots: 0,
            validator_id: None,
            actual_view_changes: Vec::new(),
        };
        collector.on_new_consensus(chain);
        collector
    }

    /// On a block-production timeout an active validator signs a vote over
    /// the current tip for the caller to broadcast; a passive node does
    /// nothing.
    pub fn handle_timeout(&self, chain: &ChainView) -> (r: Option<ViewChangeMessage>)
        requires
            chain.wf(),
            self.wf(chain),
        ensures
            match self.spec_validator_id() {
                Some(id) => match r {
                    Some(msg) => {
                        &&& msg.validator_id == id
                        &&& msg.chain.height == chain.height
                        &&& msg.chain.last_block == chain.last_block
                        &&& msg.chain.view_change == chain.view_change
                        &&& sig_valid(
                            msg.signature,
                            chain_info_digest(msg.chain),
                            pkey_of(self.spec_skey()),
                        )
                        &&& (self.spec_pkey() == pkey_of(self.spec_skey()) ==> msg_valid(
                            msg,
                            chain.validators@,
                        ))
                    },
                    None => false,
                },
                None => r is None,
            },
    {
        match self.validator_id {
            None => None,
            Some(id) => {
                let chain_info = ChainInfo::from_chain(chain);
                let msg = ViewChangeMessage::new(chain_info, id, &self.skey);
                Some(msg)
            },
        }
    }

    /// A new block advanced the tip: any accumulated votes refer to a stale
    /// tip, so they are dropped.  The validator index is kept.
    pub fn on_new_payment_block(&mut self, chain: &ChainView)
        requires
            chain.wf(),
            old(self).wf(chain),
        ensures
            final(self).msgs().len() == 0,
            final(self).collected() == 0,
            final(self).spec_validator_id() == old(self).spec_validator_id(),
            final(self).spec_pkey() == old(self).spec_pkey(),
            final(self).spec_skey() == old(self).spec_skey(),
            final(self).wf(chain),
    {
        if !self.is_validator() {
            return ;
        }
        self.reset();
    }

    /// Aggregates the accepted votes into a proof: a bitmap over the
    /// validator list marking exactly the voters, and the combined signature
    /// of their votes over the current tip's digest.
    fn build_proof(&self, chain: &ChainView) -> (p: ViewChangeProof)
        requires
            chain.wf(),
            msgs_sorted(self.msgs()),
            forall|i: int|
                0 <= i < self.msgs().len() ==> msg_valid(
                    #[trigger] self.msgs()[i],
                    chain.validators@,
                ),
        ensures
            p.multimap@.len() == chain.validators@.len(),
            forall|l: int|
                0 <= l < chain.validators@.len() ==> p.multimap@[l] == contains_id(
                    self.msgs(),
                    l,
                ),
            p.multisig.hash == chain_info_digest(chain.tip()),
            p.multisig.signers@ == selected_signers(chain.validators@, p.multimap@),
            selected_stake(chain.validators@, p.multimap@) == msgs_stake(
                self.msgs(),
                chain.validators@,
            ),
    {
        let ghost msgs = self.msgs();
        let ghost vals = chain.validators@;
        let n = chain.validators.len();
        let m = self.actual_view_changes.len();
        let mut multimap: Vec<bool> = Vec::new();
        let mut signers: Vec<u64> = Vec::new();
        let mut j: usize = 0;
        let mut i: usize = 0;
        while i < n
            invariant
                0 <= i <= n,
                0 <= j <= m,
                n == vals.len(),
                n <= 0xFFFF_FFFF,
                m == msgs.len(),
                msgs == self.msgs(),
                vals == chain.validators@,
                msgs_sorted(msgs),
                forall|l: int| 0 <= l < m ==> msg_valid(#[trigger] msgs[l], vals),
                multimap@.len() == i,
                forall|l: int| 0 <= l < i ==> multimap@[l] == contains_id(msgs, l),
                forall|l: int| 0 <= l < j ==> (#[trigger] msgs[l]).validator_id < i,
                forall|l: int| j <= l < m ==> (#[trigger] msgs[l]).validator_id >= i,
                signers@ == selected_signers(vals, multimap@),
                selected_stake(vals, multimap@) == msgs_stake(msgs.take(j as int), vals),
            decreases n - i,
        {
            let ghost bm_prev = multimap@;
            let ghost j_prev = j as int;
            let matched = j < m && self.actual_view_changes[j].validator_id == i as ValidatorId;
            if matched {
                multimap.push(true);
                signers.push(self.actual_view_changes[j].signature.signer);
                j += 1;
                proof {
                    assert(multimap@.drop_last() =~= bm_prev);
                    assert(msg_valid(msgs[j_prev], vals));
                    assert(msgs[j_prev].signature.signer == vals[i as int].0.id);
                    assert(contains_id(msgs, i as int));
                    lemma_msgs_stake_take_succ(msgs, vals, j_prev);
                    assert forall|l: int| j <= l < m implies (#[trigger] msgs[l]).validator_id >= i
                        + 1 by {
                        assert(msgs[j_prev].validator_id < msgs[l].validator_id);
                    }
                }
            } else {
                multimap.push(false);
                proof {
                    assert(multimap@.drop_last() =~= bm_prev);
                    assert forall|k: int| 0 <= k < m implies (#[trigger] msgs[k]).validator_id != i
                        as ValidatorId by {
                        if k >= j_prev {
                            if j_prev < m && k > j_prev {
                                assert(msgs[j_prev].validator_id < msgs[k].validator_id);
                            }
                        }
                    }
                    assert(!contains_id(msgs, i as int));
                    assert forall|l: int| j <= l < m implies (#[trigger] msgs[l]).validator_id >= i
                        + 1 by {
                        assert(msgs[l].validator_id != i as ValidatorId);
                    }
                }
            }
            i += 1;
        }
        proof {
            if j < m {
                assert(msg_valid(msgs[j as int], vals));
            }
            assert(j == m);
            assert(msgs.take(m as int) =~= msgs);
        }
        let chain_info = ChainInfo::from_chain(chain);
        let hash = chain_info.digest();
        ViewChangeProof { multisig: AggregateSignature { hash, signers }, multimap }
    }

    /// Accepts or rejects a peer's vote.  A passive node ignores votes; a
    /// vote over a different tip or view is rejected with the matching
    /// error; an invalid author or signature is rejected; a repeated vote by
    /// the same author changes nothing.  A novel valid vote is recorded, and
    /// when the recorded stake reaches a supermajority the votes are
    /// aggregated into a proof and the collector starts over.
    #[verifier::rlimit(100)]
    pub fn handle_message(&mut self, chain: &ChainView, message: ViewChangeMessage) -> (r: Result<
        Option<ViewChangeProof>,
        ConsensusError,
    >)
        requires
            chain.wf(),
            old(self).wf(chain),
        ensures
            final(self).wf(chain),
            final(self).spec_validator_id() == old(self).spec_validator_id(),
            final(self).spec_pkey() == old(self).spec_pkey(),
            final(self).spec_skey() == old(self).spec_skey(),
            old(self).spec_validator_id() is None ==> r == Result::<
                Option<ViewChangeProof>,
                ConsensusError,
            >::Ok(None) && final(self).msgs() == old(self).msgs() && final(self).collected() == old(self).collected(),
            old(self).spec_validator_id() is Some ==> if message.chain.height != chain.height {
                r == Result::<Option<ViewChangeProof>, ConsensusError>::Err(
                    ConsensusError::InvalidViewChangeHeight(message.chain.height, chain.height),
                ) && final(self).msgs() == old(self).msgs() && final(self).collected() == old(self).collected()
            } else if message.chain.last_block != chain.last_block {
                r == Result::<Option<ViewChangeProof>, ConsensusError>::Err(
                    ConsensusError::InvalidLastBlockHash(message.chain.last_block, chain.last_block),
                ) && final(self).msgs() == old(self).msgs() && final(self).collected() == old(self).collected()
            } else if message.chain.view_change != chain.view_change {
                r == Result::<Option<ViewChangeProof>, ConsensusError>::Err(
                    ConsensusError::InvalidViewChangeCounter(
                        message.chain.view_change,
                        chain.view_change,
                    ),
                ) && final(self).msgs() == old(self).msgs() && final(self).collected() == old(self).collected()
            } else if !msg_valid(message, chain.validators@) {
                final(self).msgs() == old(self).msgs() && final(self).collected() == old(self).collected() && r == Result::<Option<ViewChangeProof>, ConsensusError>::Err(
                    if (message.validator_id as int) >= chain.validators@.len() {
                        ConsensusError::InvalidValidatorId(message.validator_id)
                    } else {
                        ConsensusError::InvalidViewChangeSignature
                    },
                )
            } else if contains_id(old(self).msgs(), message.validator_id as int) {
                r == Result::<Option<ViewChangeProof>, ConsensusError>::Ok(None) && final(self).msgs() == old(self).msgs() && final(self).collected() == old(self).collected()
            } else if is_supermajority(
                old(self).collected() + chain.validators@[message.validator_id as int].1,
                chain.total_slots as int,
            ) {
                match r {
                    Ok(Some(p)) => {
                        &&& proof_valid(p, chain.tip(), chain.validators@, chain.total_slots as int)
                        &&& forall|l: int|
                            0 <= l < chain.validators@.len() ==> p.multimap@[l] == (contains_id(
                                old(self).msgs(),
                                l,
                            ) || l == message.validator_id as int)
                        &&& final(self).msgs().len() == 0
                        &&& final(self).collected() == 0
                    },
                    _ => false,
                }
            } else {
                &&& r == Result::<Option<ViewChangeProof>, ConsensusError>::Ok(None)
                &&& final(self).collected() == old(self).collected() + chain.validators@[
                    message.validator_id as int
                ].1
                &&& exists|k: int|
                    0 <= k <= old(self).msgs().len() && final(self).msgs() == old(self).msgs().insert(k, message)
            },
    {
        if !self.is_validator() {
            return Ok(None);
        }
        if message.chain.height != chain.height {
            return Err(ConsensusError::InvalidViewChangeHeight(message.chain.height, chain.height));
        }
        if message.chain.last_block != chain.last_block {
            return Err(
                ConsensusError::InvalidLastBlockHash(message.chain.last_block, chain.last_block),
            );
        }
        if message.chain.view_change != chain.view_change {
            return Err(
                ConsensusError::InvalidViewChangeCounter(
                    message.chain.view_change,
                    chain.view_change,
                ),
            );
        }
        match message.validate(chain) {
            Err(e) => {
                return Err(e);
            },
            Ok(_) => {},
        }
        let ghost old_msgs = self.msgs();
        let ghost vals = chain.validators@;
        let id = message.validator_id;
        let pos = vote_position(&self.actual_view_changes, id);
        if pos < self.actual_view_changes.len() && self.actual_view_changes[pos].validator_id
            == id {
            return Ok(None);
        }
        proof {
            assert forall|k: int| 0 <= k < old_msgs.len() implies (#[trigger] old_msgs[
                k
            ]).validator_id != id by {
                if k >= pos {
                    if k > pos {
                        assert(old_msgs[pos as int].validator_id < old_msgs[k].validator_id);
                    }
                }
            }
            assert(!contains_id(old_msgs, id as int));
        }
        self.actual_view_changes.insert(pos, message);
        let ghost new_msgs = self.msgs();
        proof {
            old_msgs.insert_ensures(pos as int, message);
            // the extended list is still strictly sorted by author
            assert forall|a: int, b: int|
                0 <= a < b < new_msgs.len() implies (#[trigger] new_msgs[a]).validator_id
                < (#[trigger] new_msgs[b]).validator_id by {
                if a < pos && b < pos {
                } else if a < pos && b == pos {
                } else if a == pos {
                    assert(new_msgs[b] == old_msgs[b - 1]);
                } else if b == pos {
                } else if a < pos {
                    assert(new_msgs[b] == old_msgs[b - 1]);
                } else {
                    assert(new_msgs[a] == old_msgs[a - 1]);
                    assert(new_msgs[b] == old_msgs[b - 1]);
                }
            }
            // every vote now recorded is over the current tip and valid
            assert forall|l: int| 0 <= l < new_msgs.len() implies msg_valid(
                #[trigger] new_msgs[l],
                vals,
            ) by {
                if l < pos {
                } else if l == pos {
                } else {
                    assert(new_msgs[l] == old_msgs[l - 1]);
                }
            }
            assert forall|l: int|
                0 <= l < new_msgs.len() implies (#[trigger] new_msgs[l]).chain.height
                == chain.height && new_msgs[l].chain.last_block == chain.last_block && new_msgs[
                l
            ].chain.view_change == chain.view_change by {
                if l < pos {
                } else if l == pos {
                } else {
                    assert(new_msgs[l] == old_msgs[l - 1]);
                }
            }
            assert forall|l: int| 0 <= l < new_msgs.len() implies (#[trigger] new_msgs[
                l
            ]).validator_id < vals.len() by {
                assert(msg_valid(new_msgs[l], vals));
            }
            lemma_msgs_stake_insert(old_msgs, vals, pos as int, message);
            lemma_msgs_stake_bound(new_msgs, vals, vals.len() as int);
            assert(vals.take(vals.len() as int) =~= vals);
            crate::chain::lemma_total_nonneg(chain);
        }
        let stake = chain.validators[id as usize].1;
        self.collected_slots = self.collected_slots + stake;
        if check_supermajority(self.collected_slots, chain.total_slots) {
            let proof_v = self.build_proof(chain);
            proof {
                // the bitmap marks the old voters plus the new one
                assert forall|l: int| 0 <= l < vals.len() implies (contains_id(new_msgs, l)
                    == (contains_id(old_msgs, l) || l == id as int)) by {
                    if contains_id(new_msgs, l) {
                        let k2 = choose|k2: int|
                            0 <= k2 < new_msgs.len() && new_msgs[k2].validator_id == l;
                        if k2 < pos {
                            assert(old_msgs[k2].validator_id == l);
                        } else if k2 > pos {
                            assert(old_msgs[k2 - 1].validator_id == l);
                        }
                    }
                    if contains_id(old_msgs, l) {
                        let k2 = choose|k2: int|
                            0 <= k2 < old_msgs.len() && old_msgs[k2].validator_id == l;
                        if k2 < pos {
                            assert(new_msgs[k2].validator_id == l);
                        } else {
                            assert(new_msgs[k2 + 1].validator_id == l);
                        }
                    }
                    if l == id as int {
                        assert(new_msgs[pos as int].validator_id == l);
                    }
                }
            }
            self.reset();
            proof {
                crate::chain::lemma_total_nonneg(chain);
            }
            return Ok(Some(proof_v));
        }
        Ok(None)
    }
}

} // verus!
