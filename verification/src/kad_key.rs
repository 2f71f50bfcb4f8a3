//! Keys of the discovery overlay: fixed-width hashed identifiers compared
//! by XOR distance.
//!
//! A key is a two-byte header (algorithm code and digest length) followed
//! by a 64-byte digest; a node's key embeds its public key injectively in
//! the digest.  Byte 0 carries the highest-order bits, and bit `k` of a key
//! is bit `k % 8` of the byte `k / 8` positions from the end, so bucket
//! indices and big-endian comparison agree.

use crate::crypto::PublicKey;
use vstd::prelude::*;

verus! {

/// Length of a key in bytes: two header bytes plus a 64-byte digest.
pub const KAD_KEY_LEN: usize = 66;

/// Number of distance buckets: one per digest bit.
pub const NUM_BUCKETS: usize = 512;

/// A DHT key.
#[derive(Clone, Debug)]
pub struct KadKey {
    pub bytes: Vec<u8>,
}

impl View for KadKey {
    type V = Seq<u8>;

    open spec fn view(&self) -> Seq<u8> {
        self.bytes@
    }
}

/// The byte at position `i` of the key that embeds node `n`.
pub open spec fn node_key_byte(n: PublicKey, i: int) -> u8 {
    if i == 0 {
        0x14
    } else if i == 1 {
        0x40
    } else if i < 58 {
        0
    } else {
        ((n.id >> (((65 - i) * 8) as u64)) & 0xff) as u8
    }
}

/// The key that embeds node `n`: header, zero padding, then the node's
/// 64-bit identifier in big-endian order.
pub open spec fn node_key_spec(n: PublicKey) -> Seq<u8> {
    Seq::new(KAD_KEY_LEN as nat, |i: int| node_key_byte(n, i))
}

/// A well-formed key: full width.
pub open spec fn key_wf(s: Seq<u8>) -> bool {
    s.len() == KAD_KEY_LEN
}

/// A key carrying the standard header bytes.
pub open spec fn key_headered(s: Seq<u8>) -> bool {
    key_wf(s) && s[0] == 0x14 && s[1] == 0x40
}

impl KadKey {
    /// A well-formed key: full width.
    pub open spec fn wf(&self) -> bool {
        key_wf(self@)
    }

    /// Copies the key.
    pub fn duplicate(&self) -> (r: KadKey)
        ensures
            r@ == self@,
    {
        let mut bytes: Vec<u8> = Vec::new();
        let mut i: usize = 0;
        while i < self.bytes.len()
            invariant
                0 <= i <= self.bytes@.len(),
                bytes@ == self.bytes@.take(i as int),
            decreases self.bytes@.len() - i,
        {
            let b = self.bytes[i];
            bytes.push(b);
            proof {
                assert(self.bytes@.take(i + 1).drop_last() =~= self.bytes@.take(i as int));
            }
            i += 1;
        }
        proof {
            assert(self.bytes@.take(self.bytes@.len() as int) =~= self.bytes@);
        }
        KadKey { bytes }
    }

    /// Compares the key bytes with another key's.
    pub fn same_as(&self, other: &KadKey) -> (r: bool)
        ensures
            r == (self@ == other@),
    {
        if self.bytes.len() != other.bytes.len() {
            return false;
        }
        let mut i: usize = 0;
        while i < self.bytes.len()
            invariant
                0 <= i <= self.bytes@.len(),
                self.bytes@.len() == other.bytes@.len(),
                forall|l: int| 0 <= l < i ==> self.bytes@[l] == other.bytes@[l],
            decreases self.bytes@.len() - i,
        {
            if self.bytes[i] != other.bytes[i] {
                return false;
            }
            i += 1;
        }
        proof {
            assert(self.bytes@ =~= other.bytes@);
        }
        true
    }
}

/// The key of node `n`.
pub fn node_key(n: &PublicKey) -> (r: KadKey)
    ensures
        r@ == node_key_spec(*n),
        r.wf(),
        key_headered(r@),
{
    let mut bytes: Vec<u8> = Vec::new();
    bytes.push(0x14);
    bytes.push(0x40);
    let mut i: usize = 2;
    while i < 58
        invariant
            2 <= i <= 58,
            bytes@.len() == i,
            forall|l: int| 0 <= l < i ==> bytes@[l] == node_key_byte(*n, l),
        decreases 58 - i,
    {
        bytes.push(0);
        i += 1;
    }
    let mut k: usize = 0;
    while k < 8
        invariant
            0 <= k <= 8,
            bytes@.len() == 58 + k,
            forall|l: int| 0 <= l < 58 + k ==> bytes@[l] == node_key_byte(*n, l),
        decreases 8 - k,
    {
        let shift: u64 = ((7 - k) * 8) as u64;
        let b: u8 = ((n.id >> shift) & 0xff) as u8;
        bytes.push(b);
        k += 1;
    }
    proof {
        assert(bytes@ =~= node_key_spec(*n));
    }
    KadKey { bytes }
}

/// Distinct nodes have distinct keys.
pub proof fn lemma_node_key_injective(a: PublicKey, b: PublicKey)
    requires
        node_key_spec(a) == node_key_spec(b),
    ensures
        a.id == b.id,
{
    let x = a.id;
    let y = b.id;
    assert(node_key_spec(a).len() == 66);
    assert(node_key_byte(a, 58) == node_key_spec(a)[58] && node_key_byte(b, 58) == node_key_spec(
        b,
    )[58]);
    assert(node_key_byte(a, 59) == node_key_spec(a)[59] && node_key_byte(b, 59) == node_key_spec(
        b,
    )[59]);
    assert(node_key_byte(a, 60) == node_key_spec(a)[60] && node_key_byte(b, 60) == node_key_spec(
        b,
    )[60]);
    assert(node_key_byte(a, 61) == node_key_spec(a)[61] && node_key_byte(b, 61) == node_key_spec(
        b,
    )[61]);
    assert(node_key_byte(a, 62) == node_key_spec(a)[62] && node_key_byte(b, 62) == node_key_spec(
        b,
    )[62]);
    assert(node_key_byte(a, 63) == node_key_spec(a)[63] && node_key_byte(b, 63) == node_key_spec(
        b,
    )[63]);
    assert(node_key_byte(a, 64) == node_key_spec(a)[64] && node_key_byte(b, 64) == node_key_spec(
        b,
    )[64]);
    assert(node_key_byte(a, 65) == node_key_spec(a)[65] && node_key_byte(b, 65) == node_key_spec(
        b,
    )[65]);
    assert((x >> 56) & 0xff < 256 && (x >> 48) & 0xff < 256 && (x >> 40) & 0xff < 256 && (x >> 32)
        & 0xff < 256 && (x >> 24) & 0xff < 256 && (x >> 16) & 0xff < 256 && (x >> 8) & 0xff < 256
        && (x >> 0) & 0xff < 256) by (bit_vector);
    assert((y >> 56) & 0xff < 256 && (y >> 48) & 0xff < 256 && (y >> 40) & 0xff < 256 && (y >> 32)
        & 0xff < 256 && (y >> 24) & 0xff < 256 && (y >> 16) & 0xff < 256 && (y >> 8) & 0xff < 256
        && (y >> 0) & 0xff < 256) by (bit_vector);
    assert((x >> 56) & 0xff == (y >> 56) & 0xff && (x >> 48) & 0xff == (y >> 48) & 0xff && (x >> 40)
        & 0xff == (y >> 40) & 0xff && (x >> 32) & 0xff == (y >> 32) & 0xff && (x >> 24) & 0xff == (y
        >> 24) & 0xff && (x >> 16) & 0xff == (y >> 16) & 0xff && (x >> 8) & 0xff == (y >> 8) & 0xff
        && (x >> 0) & 0xff == (y >> 0) & 0xff ==> x == y) by (bit_vector);
}

/// Comparison of the XOR distances of `a` and `b` to `t`, examined from
/// byte position `i` downwards in significance: the first position where
/// the distances differ decides.
pub open spec fn xcmp_from(a: Seq<u8>, b: Seq<u8>, t: Seq<u8>, i: int) -> core::cmp::Ordering
    decreases a.len() + b.len() + t.len() - i,
    when 0 <= i
{
    if i >= a.len() || i >= b.len() || i >= t.len() {
        core::cmp::Ordering::Equal
    } else if (a[i] ^ t[i]) < (b[i] ^ t[i]) {
        core::cmp::Ordering::Less
    } else if (a[i] ^ t[i]) > (b[i] ^ t[i]) {
        core::cmp::Ordering::Greater
    } else {
        xcmp_from(a, b, t, i + 1)
    }
}

/// `a` is no farther from `t` than `b` is.
pub open spec fn dist_le(a: Seq<u8>, b: Seq<u8>, t: Seq<u8>) -> bool {
    !(xcmp_from(a, b, t, 0) is Greater)
}

/// `a` is strictly closer to `t` than `b` is.
pub open spec fn dist_lt(a: Seq<u8>, b: Seq<u8>, t: Seq<u8>) -> bool {
    xcmp_from(a, b, t, 0) is Less
}

/// A key is at zero distance from itself.
pub proof fn lemma_xcmp_refl(a: Seq<u8>, t: Seq<u8>, i: int)
    requires
        0 <= i,
    ensures
        xcmp_from(a, a, t, i) is Equal,
    decreases a.len() + t.len() - i,
{
    if i < a.len() && i < t.len() {
        lemma_xcmp_refl(a, t, i + 1);
    }
}

/// Swapping the compared keys flips the outcome.
pub proof fn lemma_xcmp_flip(a: Seq<u8>, b: Seq<u8>, t: Seq<u8>, i: int)
    requires
        0 <= i,
    ensures
        xcmp_from(a, b, t, i) is Less <==> xcmp_from(b, a, t, i) is Greater,
        xcmp_from(a, b, t, i) is Equal <==> xcmp_from(b, a, t, i) is Equal,
    decreases a.len() + b.len() + t.len() - i,
{
    if i < a.len() && i < b.len() && i < t.len() {
        if (a[i] ^ t[i]) == (b[i] ^ t[i]) {
            lemma_xcmp_flip(a, b, t, i + 1);
        }
    }
}

/// The distance order is transitive.
pub proof fn lemma_xcmp_trans(a: Seq<u8>, b: Seq<u8>, c: Seq<u8>, t: Seq<u8>, i: int)
    requires
        0 <= i,
        a.len() == b.len() == c.len() == t.len(),
        !(xcmp_from(a, b, t, i) is Greater),
        !(xcmp_from(b, c, t, i) is Greater),
    ensures
        !(xcmp_from(a, c, t, i) is Greater),
        xcmp_from(a, c, t, i) is Equal ==> xcmp_from(a, b, t, i) is Equal && xcmp_from(
            b,
            c,
            t,
            i,
        ) is Equal,
    decreases a.len() + b.len() + c.len() + t.len() - i,
{
    if i < a.len() {
        if (a[i] ^ t[i]) == (b[i] ^ t[i]) && (b[i] ^ t[i]) == (c[i] ^ t[i]) {
            lemma_xcmp_trans(a, b, c, t, i + 1);
        }
    }
}

/// Keys at equal distance from `t` agree on every byte from `i` on.
pub proof fn lemma_xcmp_eq(a: Seq<u8>, b: Seq<u8>, t: Seq<u8>, i: int)
    requires
        0 <= i,
        a.len() == b.len() == t.len(),
        xcmp_from(a, b, t, i) is Equal,
    ensures
        forall|j: int| i <= j < a.len() ==> a[j] == b[j],
    decreases a.len() - i,
{
    if i < a.len() {
        assert((a[i] ^ t[i]) == (b[i] ^ t[i]));
        let x = a[i];
        let y = b[i];
        let m = t[i];
        assert((x ^ m) == (y ^ m) ==> x == y) by (bit_vector);
        lemma_xcmp_eq(a, b, t, i + 1);
    }
}

/// Compares the XOR distances of `a` and `b` to the target `t`.
pub fn xor_distance_cmp(a: &KadKey, b: &KadKey, t: &KadKey) -> (r: core::cmp::Ordering)
    requires
        a.wf(),
        b.wf(),
        t.wf(),
    ensures
        r == xcmp_from(a@, b@, t@, 0),
{
    let mut i: usize = 0;
    while i < KAD_KEY_LEN
        invariant
            0 <= i <= KAD_KEY_LEN,
            a@.len() == KAD_KEY_LEN,
            b@.len() == KAD_KEY_LEN,
            t@.len() == KAD_KEY_LEN,
            xcmp_from(a@, b@, t@, 0) == xcmp_from(a@, b@, t@, i as int),
        decreases KAD_KEY_LEN - i,
    {
        let da = a.bytes[i] ^ t.bytes[i];
        let db = b.bytes[i] ^ t.bytes[i];
        if da < db {
            return core::cmp::Ordering::Less;
        } else if da > db {
            return core::cmp::Ordering::Greater;
        }
        i += 1;
    }
    core::cmp::Ordering::Equal
}

/// The index of the highest set bit of a byte, or `-1` for zero.
pub open spec fn msb_u8(x: u8) -> int {
    if x >= 128 {
        7
    } else if x >= 64 {
        6
    } else if x >= 32 {
        5
    } else if x >= 16 {
        4
    } else if x >= 8 {
        3
    } else if x >= 4 {
        2
    } else if x >= 2 {
        1
    } else if x >= 1 {
        0
    } else {
        -1
    }
}

/// The first byte position where two keys differ, starting at `i`, or
/// `-1` when they agree everywhere.
pub open spec fn first_diff(a: Seq<u8>, b: Seq<u8>, i: int) -> int
    decreases a.len() + b.len() - i,
    when 0 <= i
{
    if i >= a.len() || i >= b.len() {
        -1
    } else if a[i] != b[i] {
        i
    } else {
        first_diff(a, b, i + 1)
    }
}

/// The distance bucket two keys fall into: the index of their highest
/// differing bit, or `-1` for equal keys.
pub open spec fn bucket_of(a: Seq<u8>, b: Seq<u8>) -> int {
    let p = first_diff(a, b, 0);
    if p < 0 {
        -1
    } else {
        8 * (a.len() - 1 - p) + msb_u8(a[p] ^ b[p])
    }
}

/// The index of the highest set bit of a non-zero byte.
fn msb_index(x: u8) -> (r: usize)
    requires
        x > 0,
    ensures
        r == msb_u8(x),
{
    if x >= 128 {
        7
    } else if x >= 64 {
        6
    } else if x >= 32 {
        5
    } else if x >= 16 {
        4
    } else if x >= 8 {
        3
    } else if x >= 4 {
        2
    } else if x >= 2 {
        1
    } else {
        0
    }
}

/// The distance bucket two keys fall into, or `None` for equal keys.
pub fn bucket_index(a: &KadKey, b: &KadKey) -> (r: Option<usize>)
    requires
        a.wf(),
        b.wf(),
    ensures
        match r {
            Some(k) => bucket_of(a@, b@) == k,
            None => bucket_of(a@, b@) == -1,
        },
{
    let mut i: usize = 0;
    while i < KAD_KEY_LEN
        invariant
            0 <= i <= KAD_KEY_LEN,
            a@.len() == KAD_KEY_LEN,
            b@.len() == KAD_KEY_LEN,
            first_diff(a@, b@, 0) == first_diff(a@, b@, i as int),
        decreases KAD_KEY_LEN - i,
    {
        let x = a.bytes[i] ^ b.bytes[i];
        if x != 0 {
            proof {
                let xa = a@[i as int];
                let xb = b@[i as int];
                assert((xa ^ xb) != 0 ==> xa != xb) by (bit_vector);
                assert(first_diff(a@, b@, i as int) == i);
            }
            let m = msb_index(x);
            return Some(8 * (KAD_KEY_LEN - 1 - i) + m);
        }
        proof {
            let xa = a@[i as int];
            let xb = b@[i as int];
            assert((xa ^ xb) == 0 ==> xa == xb) by (bit_vector);
        }
        i += 1;
    }
    None
}

/// Keys that agree on the two header bytes fall into a bucket below the
/// digest bit width (or are equal).
pub proof fn lemma_bucket_range(a: Seq<u8>, b: Seq<u8>)
    requires
        key_headered(a),
        key_headered(b),
    ensures
        -1 <= bucket_of(a, b) < NUM_BUCKETS,
{
    let p = first_diff(a, b, 0);
    if p >= 0 {
        lemma_first_diff_range(a, b, 0);
        assert(p >= 2) by {
            if p < 2 {
                lemma_first_diff_is_diff(a, b, 0);
            }
        }
        lemma_first_diff_is_diff(a, b, 0);
        let x = a[p] ^ b[p];
        let xa = a[p];
        let xb = b[p];
        assert(xa != xb ==> (xa ^ xb) != 0) by (bit_vector);
    }
}

/// Relies on rand::random for fresh randomness; nothing can be promised
/// of the value it returns.
pub assume_specification<T>[ rand::random::<T> ]() -> (r: T)
    where
        rand::distributions::Standard: rand::distributions::Distribution<T>,
;

/// Generates a random key that agrees with `my_id` on every bit above the
/// given bucket index, so that a lookup for it lands near that bucket.
/// Relies on rand::random for the randomized low bits; nothing is promised
/// about them.  Fails for a bucket index at or beyond the digest width.
pub fn gen_random_hash(my_id: &KadKey, bucket_num: usize) -> (r: Result<KadKey, ()>)
    requires
        my_id.wf(),
    ensures
        match r {
            Ok(h) => {
                &&& bucket_num < 8 * (KAD_KEY_LEN - 2)
                &&& h.wf()
                &&& forall|i: int|
                    0 <= i < KAD_KEY_LEN - (bucket_num + 1) / 8 - 1 ==> h@[i] == my_id@[i]
                &&& (h@[KAD_KEY_LEN - (bucket_num + 1) / 8 - 1] >> (((bucket_num + 1) % 8) as u8))
                    == (my_id@[KAD_KEY_LEN - (bucket_num + 1) / 8 - 1] >> (((bucket_num + 1)
                    % 8) as u8))
                &&& h@[0] == my_id@[0]
                &&& h@[1] == my_id@[1]
            },
            Err(_) => bucket_num >= 8 * (KAD_KEY_LEN - 2),
        },
{
    if bucket_num >= 8 * (KAD_KEY_LEN - 2) {
        return Err(());
    }
    let bits_diff = bucket_num + 1;
    let boundary = KAD_KEY_LEN - bits_diff / 8 - 1;
    let s: u8 = (bits_diff % 8) as u8;
    proof {
        let sv = s;
        assert(sv < 8 ==> (1u8 << sv) >= 1) by (bit_vector);
    }
    let mask: u8 = (1u8 << s) - 1;
    let mut bytes: Vec<u8> = Vec::new();
    let mut i: usize = 0;
    while i < KAD_KEY_LEN
        invariant
            0 <= i <= KAD_KEY_LEN,
            my_id@.len() == KAD_KEY_LEN,
            bytes@.len() == i,
            1 <= boundary < KAD_KEY_LEN,
            boundary == KAD_KEY_LEN - (bucket_num + 1) / 8 - 1,
            s == ((bucket_num + 1) % 8) as u8,
            s < 8,
            mask == (1u8 << s) - 1,
            boundary == 1 ==> s == 0,
            forall|l: int| 0 <= l < i && l < boundary ==> bytes@[l] == my_id@[l],
            i > boundary ==> (bytes@[boundary as int] >> s) == (my_id@[boundary as int] >> s),
            i > 0 ==> bytes@[0] == my_id@[0],
            i > 1 ==> bytes@[1] == my_id@[1],
        decreases KAD_KEY_LEN - i,
    {
        if i < boundary {
            let b = my_id.bytes[i];
            bytes.push(b);
        } else if i == boundary {
            let rb: u8 = rand::random();
            let b = (my_id.bytes[i] & !mask) | (rb & mask);
            bytes.push(b);
            proof {
                let x = my_id@[i as int];
                let y = rb;
                assert(s < 8 ==> (((x & !(((1u8 << s) - 1) as u8)) | (y & (((1u8 << s) - 1)
                    as u8))) >> s) == (x >> s)) by (bit_vector);
                assert(s == 0 ==> ((x & !(((1u8 << s) - 1) as u8)) | (y & (((1u8 << s) - 1)
                    as u8))) == x) by (bit_vector);
            }
        } else {
            let rb: u8 = rand::random();
            bytes.push(rb);
        }
        i += 1;
    }
    Ok(KadKey { bytes })
}

/// A non-negative first difference lies within the keys.
pub proof fn lemma_first_diff_range(a: Seq<u8>, b: Seq<u8>, i: int)
    requires
        0 <= i,
    ensures
        first_diff(a, b, i) == -1 || (i <= first_diff(a, b, i) && first_diff(a, b, i) < a.len()
            && first_diff(a, b, i) < b.len()),
    decreases a.len() + b.len() - i,
{
    if i < a.len() && i < b.len() && a[i] == b[i] {
        lemma_first_diff_range(a, b, i + 1);
    }
}

/// Bytes before the first difference agree, and the first difference
/// itself is a real difference.
pub proof fn lemma_first_diff_is_diff(a: Seq<u8>, b: Seq<u8>, i: int)
    requires
        0 <= i,
    ensures
        first_diff(a, b, i) >= 0 ==> a[first_diff(a, b, i)] != b[first_diff(a, b, i)],
        forall|j: int|
            i <= j < a.len() && j < b.len() && (first_diff(a, b, i) == -1 || j < first_diff(
                a,
                b,
                i,
            )) ==> a[j] == b[j],
    decreases a.len() + b.len() - i,
{
    if i < a.len() && i < b.len() && a[i] == b[i] {
        lemma_first_diff_is_diff(a, b, i + 1);
    }
}

} // verus!
