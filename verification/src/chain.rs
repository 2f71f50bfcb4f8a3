//! The consensus-facing view of the chain tip: the `ChainInfo` value that
//! view-change votes are cast over, a read-only facade over the tip and the
//! validator set of the current epoch, and the supermajority predicate that
//! decides when enough stake has voted.

use crate::crypto::{Digest, PublicKey};
use vstd::prelude::*;

verus! {

/// Dense index into the ordered validator list of the current epoch.
pub type ValidatorId = u32;

/// Supermajority means strictly more than two thirds of the total stake.
pub open spec fn is_supermajority(got: int, total: int) -> bool {
    got * 3 > total * 2
}

/// Decides whether `got` slots out of `total` form a supermajority
/// (strictly more than two thirds).
pub fn check_supermajority(got: i64, total: i64) -> (r: bool)
    requires
        -0x2000_0000_0000_0000 < got < 0x2000_0000_0000_0000,
        -0x2000_0000_0000_0000 < total < 0x2000_0000_0000_0000,
    ensures
        r == is_supermajority(got as int, total as int),
{
    got * 3 > total * 2
}

/// Identity of a chain tip as seen by a voter: the block height, the hash
/// of the last block, and the view-change counter at that height.
#[derive(Clone, Copy, Debug, PartialEq, Eq, Structural)]
pub struct ChainInfo {
    pub height: u64,
    pub last_block: Digest,
    pub view_change: u32,
}

/// The digest a view-change vote signs: a fixed-width mix of the tip's
/// identifying fields.  Two voters observing the same tip at the same view
/// obtain the same digest.
pub open spec fn chain_info_digest(c: ChainInfo) -> Digest {
    Digest {
        w0: c.height ^ c.last_block.w0,
        w1: ((c.view_change as u64) << 32) ^ c.last_block.w1,
    }
}

impl ChainInfo {
    /// Computes the digest this tip identity is signed under.
    pub fn digest(&self) -> (h: Digest)
        ensures
            h == chain_info_digest(*self),
    {
        Digest {
            w0: self.height ^ self.last_block.w0,
            w1: ((self.view_change as u64) << 32) ^ self.last_block.w1,
        }
    }

    /// Summarizes the current tip of the chain view.
    pub fn from_chain(chain: &ChainView) -> (c: ChainInfo)
        ensures
            c.height == chain.height,
            c.last_block == chain.last_block,
            c.view_change == chain.view_change,
    {
        ChainInfo {
            height: chain.height,
            last_block: chain.last_block,
            view_change: chain.view_change,
        }
    }
}

/// Total stake of a validator list.
pub open spec fn stake_total(vs: Seq<(PublicKey, i64)>) -> int
    decreases vs.len(),
{
    if vs.len() == 0 {
        0
    } else {
        stake_total(vs.drop_last()) + vs.last().1
    }
}

/// Read-only facade over the blockchain state that consensus consults: the
/// tip identity plus the ordered validator list `(key, stake)` of the
/// current epoch and its total stake.
pub struct ChainView {
    pub height: u64,
    pub last_block: Digest,
    pub view_change: u32,
    pub validators: Vec<(PublicKey, i64)>,
    pub total_slots: i64,
}

impl ChainView {
    /// A well-formed view: every stake is non-negative, `total_slots` is
    /// their sum, and the counts stay clear of machine limits.
    pub open spec fn wf(&self) -> bool {
        &&& self.validators@.len() <= 0xFFFF_FFFF
        &&& forall|i: int|
            0 <= i < self.validators@.len() ==> 0 <= #[trigger] self.validators@[i].1
        &&& self.total_slots == stake_total(self.validators@)
        &&& self.total_slots < 0x2000_0000_0000_0000
    }

    /// The identity of the current tip.
    pub open spec fn tip(&self) -> ChainInfo {
        ChainInfo { height: self.height, last_block: self.last_block, view_change: self.view_change }
    }
}

/// Extending a prefix by one validator adds that validator's stake to the
/// prefix sum.
pub proof fn lemma_stake_take_succ(vs: Seq<(PublicKey, i64)>, i: int)
    requires
        0 <= i < vs.len(),
    ensures
        stake_total(vs.take(i + 1)) == stake_total(vs.take(i)) + vs[i].1,
{
    assert(vs.take(i + 1).drop_last() =~= vs.take(i));
    assert(vs.take(i + 1).last() == vs[i]);
}

/// Prefix sums of a non-negative stake list grow with the prefix length.
pub proof fn lemma_stake_take_mono(vs: Seq<(PublicKey, i64)>, a: int, b: int)
    requires
        0 <= a <= b <= vs.len(),
        forall|i: int| 0 <= i < vs.len() ==> 0 <= #[trigger] vs[i].1,
    ensures
        stake_total(vs.take(a)) <= stake_total(vs.take(b)),
    decreases b - a,
{
    if a < b {
        lemma_stake_take_succ(vs, b - 1);
        lemma_stake_take_mono(vs, a, b - 1);
    }
}

/// The total stake of a well-formed chain view is non-negative.
pub proof fn lemma_total_nonneg(chain: &ChainView)
    requires
        chain.wf(),
    ensures
        0 <= chain.total_slots,
{
    lemma_stake_total_prefix(chain.validators@, chain.validators@.len() as int);
    assert(chain.validators@.take(chain.validators@.len() as int) =~= chain.validators@);
}

/// The sum of any prefix of a non-negative stake list is bounded by the sum
/// of the whole list, and every such sum is non-negative.
pub proof fn lemma_stake_total_prefix(vs: Seq<(PublicKey, i64)>, n: int)
    requires
        0 <= n <= vs.len(),
        forall|i: int| 0 <= i < vs.len() ==> 0 <= #[trigger] vs[i].1,
    ensures
        0 <= stake_total(vs.take(n)) <= stake_total(vs),
    decreases vs.len(),
{
    if vs.len() == 0 {
        assert(vs.take(n) =~= vs);
    } else if n == vs.len() {
        assert(vs.take(n) =~= vs);
        lemma_stake_total_prefix(vs.drop_last(), vs.len() - 1);
        assert(vs.drop_last().take(vs.len() - 1) =~= vs.drop_last());
    } else {
        assert(vs.take(n) =~= vs.drop_last().take(n));
        lemma_stake_total_prefix(vs.drop_last(), n);
    }
}

} // verus!
