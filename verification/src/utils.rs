//! Byte-vector and hex-string utilities: hex encoding and decoding, bit
//! printing, and big/little-endian comparison and shift helpers for
//! fixed-width unsigned numbers held as byte vectors.

use vstd::prelude::*;
use vstd::string::StringSliceAdditionalSpecFns;

verus! {

/// Failures of the hex-string conversions.
#[derive(Clone, Copy, Debug, PartialEq, Eq, Structural)]
pub enum CryptoError {
    /// The input is not a decodable hex string.
    InvalidHex,
    /// The decoded value does not fit the output vector.
    InvalidHexLength,
}

/// Whether a byte is an ASCII hex digit (`0-9`, `a-f`, `A-F`).
pub open spec fn is_hex_digit(b: u8) -> bool {
    (48 <= b && b <= 57) || (97 <= b && b <= 102) || (65 <= b && b <= 70)
}

/// The value of an ASCII hex digit.
pub open spec fn hex_digit_value(b: u8) -> u8
    recommends
        is_hex_digit(b),
{
    if 48 <= b && b <= 57 {
        (b - 48) as u8
    } else if 97 <= b && b <= 102 {
        (b - 97 + 10) as u8
    } else {
        (b - 65 + 10) as u8
    }
}

/// Whether every byte of the string is an ASCII hex digit.
pub open spec fn all_hex(s: Seq<u8>) -> bool {
    forall|i: int| 0 <= i < s.len() ==> is_hex_digit(#[trigger] s[i])
}

/// The bytes an even-length hex string denotes, one byte per digit pair.
pub open spec fn hex_decoded(s: Seq<u8>) -> Seq<u8>
    recommends
        s.len() % 2 == 0,
        all_hex(s),
{
    Seq::new(
        s.len() / 2,
        |i: int| (hex_digit_value(s[2 * i]) * 16 + hex_digit_value(s[2 * i + 1])) as u8,
    )
}

/// A hex string with a leading `0` digit added when its length is odd.
pub open spec fn hex_pad(s: Seq<u8>) -> Seq<u8> {
    if s.len() % 2 == 1 {
        seq![48u8] + s
    } else {
        s
    }
}

/// Declares hex::FromHexError so that the decode wrapper can return it;
/// verified code only maps it to this module's own error.
#[verifier::external_type_specification]
#[verifier::external_body]
pub struct ExFromHexError(hex::FromHexError);

/// Relies on hex::decode: an even-length string of hex digits decodes to
/// one byte per digit pair, high digit first; anything else is an error.
#[verifier::external_body]
fn hex_decode(data: &[u8]) -> (r: Result<Vec<u8>, hex::FromHexError>)
    ensures
        match r {
            Ok(v) => data@.len() % 2 == 0 && all_hex(data@) && v@ == hex_decoded(data@),
            Err(_) => !(data@.len() % 2 == 0 && all_hex(data@)),
        },
{
    hex::decode(data)
}

/// Relies on String::push: appends exactly the given character.
pub assume_specification[ String::push ](s: &mut String, c: char)
    ensures
        final(s)@ == old(s)@.push(c),
;

/// Decodes a hex string into a big-endian byte vector: the decoded bytes
/// are written at the front of `x` and the remainder of `x` is zeroed.  An
/// odd number of digits is read as if a `0` digit were prepended.
pub fn hexstr_to_bev_u8(s: &str, x: &mut Vec<u8>) -> (r: Result<(), CryptoError>)
    ensures
        final(x)@.len() == old(x)@.len(),
        !all_hex(hex_pad(s.spec_bytes())) ==> r == Result::<(), CryptoError>::Err(
            CryptoError::InvalidHex,
        ) && final(x)@ == old(x)@,
        all_hex(hex_pad(s.spec_bytes())) && old(x)@.len() < hex_pad(s.spec_bytes()).len() / 2
            ==> r == Result::<(), CryptoError>::Err(CryptoError::InvalidHexLength) && final(x)@
            == old(x)@,
        all_hex(hex_pad(s.spec_bytes())) && old(x)@.len() >= hex_pad(s.spec_bytes()).len() / 2
            ==> r == Result::<(), CryptoError>::Ok(()) && final(x)@ == hex_decoded(
            hex_pad(s.spec_bytes()),
        ) + Seq::new(
            (old(x)@.len() - hex_pad(s.spec_bytes()).len() / 2) as nat,
            |i: int| 0u8,
        ),
{
    let ghost p = hex_pad(s.spec_bytes());
    let bytes = s.as_bytes();
    let mut sx: Vec<u8> = Vec::new();
    if bytes.len() % 2 == 1 {
        sx.push(48);
    }
    sx.extend_from_slice(bytes);
    proof {
        assert(sx@ =~= p);
    }
    let v = match hex_decode(sx.as_slice()) {
        Ok(v) => v,
        Err(_) => {
            return Err(CryptoError::InvalidHex);
        },
    };
    let nel = x.len();
    if nel < v.len() {
        return Err(CryptoError::InvalidHexLength);
    }
    let mut ix: usize = 0;
    while ix < v.len()
        invariant
            0 <= ix <= v@.len() <= x@.len(),
            x@.len() == old(x)@.len(),
            forall|l: int| 0 <= l < ix ==> x@[l] == v@[l],
            forall|l: int| ix <= l < x@.len() ==> x@[l] == old(x)@[l],
        decreases v@.len() - ix,
    {
        let b = v[ix];
        x[ix] = b;
        ix += 1;
    }
    while ix < nel
        invariant
            v@.len() <= ix <= nel,
            nel == x@.len(),
            x@.len() == old(x)@.len(),
            forall|l: int| 0 <= l < v@.len() ==> x@[l] == v@[l],
            forall|l: int| v@.len() <= l < ix ==> x@[l] == 0,
        decreases nel - ix,
    {
        x[ix] = 0;
        ix += 1;
    }
    proof {
        assert(final(x)@ =~= hex_decoded(p) + Seq::new(
            (old(x)@.len() - p.len() / 2) as nat,
            |i: int| 0u8,
        ));
    }
    Ok(())
}

/// Decodes a hex string into a little-endian byte vector: the decoded
/// bytes are written reversed at the front of `x` and the rest of `x` is
/// zeroed.  An odd number of digits is read as if a `0` digit were
/// prepended.
pub fn hexstr_to_lev_u8(s: &str, x: &mut Vec<u8>) -> (r: Result<bool, CryptoError>)
    ensures
        final(x)@.len() == old(x)@.len(),
        !all_hex(hex_pad(s.spec_bytes())) ==> r == Result::<bool, CryptoError>::Err(
            CryptoError::InvalidHex,
        ) && final(x)@ == old(x)@,
        all_hex(hex_pad(s.spec_bytes())) && old(x)@.len() < hex_pad(s.spec_bytes()).len() / 2
            ==> r == Result::<bool, CryptoError>::Err(CryptoError::InvalidHexLength) && final(x)@
            == old(x)@,
        all_hex(hex_pad(s.spec_bytes())) && old(x)@.len() >= hex_pad(s.spec_bytes()).len() / 2
            ==> r == Result::<bool, CryptoError>::Ok(true) && (forall|l: int|
            0 <= l < hex_pad(s.spec_bytes()).len() / 2 ==> final(x)@[l] == hex_decoded(
                hex_pad(s.spec_bytes()),
            )[hex_pad(s.spec_bytes()).len() / 2 - 1 - l]) && (forall|l: int|
            hex_pad(s.spec_bytes()).len() / 2 <= l < final(x)@.len() ==> final(x)@[l] == 0),
{
    let ghost p = hex_pad(s.spec_bytes());
    let bytes = s.as_bytes();
    let mut sx: Vec<u8> = Vec::new();
    if bytes.len() % 2 == 1 {
        sx.push(48);
    }
    sx.extend_from_slice(bytes);
    proof {
        assert(sx@ =~= p);
    }
    let v = match hex_decode(sx.as_slice()) {
        Ok(v) => v,
        Err(_) => {
            return Err(CryptoError::InvalidHex);
        },
    };
    let nel = x.len();
    if nel < v.len() {
        return Err(CryptoError::InvalidHexLength);
    }
    let m = v.len();
    let mut ix: usize = nel;
    while ix > m
        invariant
            m <= ix <= nel,
            m == v@.len(),
            nel == x@.len(),
            x@.len() == old(x)@.len(),
            forall|l: int| ix <= l < nel ==> x@[l] == 0,
            forall|l: int| 0 <= l < ix ==> x@[l] == old(x)@[l],
        decreases ix,
    {
        ix -= 1;
        x[ix] = 0;
    }
    let mut k: usize = 0;
    while k < m
        invariant
            0 <= k <= m,
            ix == m - k,
            m == v@.len() <= nel,
            nel == x@.len(),
            x@.len() == old(x)@.len(),
            forall|l: int| m <= l < nel ==> x@[l] == 0,
            forall|l: int| m - k <= l < m ==> x@[l] == v@[m - 1 - l],
        decreases m - k,
    {
        ix -= 1;
        let b = v[k];
        x[ix] = b;
        k += 1;
    }
    Ok(true)
}

/// The lowercase hex digit for a value below sixteen.
pub open spec fn hex_char_of_nibble(n: u8) -> char
    recommends
        n < 16,
{
    if n == 0 {
        '0'
    } else if n == 1 {
        '1'
    } else if n == 2 {
        '2'
    } else if n == 3 {
        '3'
    } else if n == 4 {
        '4'
    } else if n == 5 {
        '5'
    } else if n == 6 {
        '6'
    } else if n == 7 {
        '7'
    } else if n == 8 {
        '8'
    } else if n == 9 {
        '9'
    } else if n == 10 {
        'a'
    } else if n == 11 {
        'b'
    } else if n == 12 {
        'c'
    } else if n == 13 {
        'd'
    } else if n == 14 {
        'e'
    } else {
        'f'
    }
}

/// The lowercase hex rendering of a byte string, two digits per byte.
pub open spec fn hex_string_of(bytes: Seq<u8>) -> Seq<char>
    decreases bytes.len(),
{
    if bytes.len() == 0 {
        Seq::empty()
    } else {
        hex_string_of(bytes.drop_last()).push(hex_char_of_nibble(bytes.last() / 16)).push(
            hex_char_of_nibble((bytes.last() % 16) as u8),
        )
    }
}

/// The lowercase hex digit for a value below sixteen.
fn hex_char_digit(n: u8) -> (c: char)
    requires
        n < 16,
    ensures
        c == hex_char_of_nibble(n),
{
    if n == 0 {
        '0'
    } else if n == 1 {
        '1'
    } else if n == 2 {
        '2'
    } else if n == 3 {
        '3'
    } else if n == 4 {
        '4'
    } else if n == 5 {
        '5'
    } else if n == 6 {
        '6'
    } else if n == 7 {
        '7'
    } else if n == 8 {
        '8'
    } else if n == 9 {
        '9'
    } else if n == 10 {
        'a'
    } else if n == 11 {
        'b'
    } else if n == 12 {
        'c'
    } else if n == 13 {
        'd'
    } else if n == 14 {
        'e'
    } else {
        'f'
    }
}

/// Renders a byte vector as a lowercase hex string, two digits per byte.
pub fn u8v_to_hexstr(x: &Vec<u8>) -> (s: String)
    ensures
        s@ == hex_string_of(x@),
{
    let mut s = String::new();
    let mut ix: usize = 0;
    while ix < x.len()
        invariant
            0 <= ix <= x@.len(),
            s@ == hex_string_of(x@.take(ix as int)),
        decreases x@.len() - ix,
    {
        let b = x[ix];
        let hi = hex_char_digit(b / 16);
        let lo = hex_char_digit(b % 16);
        s.push(hi);
        s.push(lo);
        proof {
            assert(x@.take(ix + 1).drop_last() =~= x@.take(ix as int));
            assert(x@.take(ix + 1).last() == x@[ix as int]);
        }
        ix += 1;
    }
    proof {
        assert(x@.take(x@.len() as int) =~= x@);
    }
    s
}

/// Whether bit `i` of the byte string is set; bit 0 is the lowest bit of
/// the first byte.
pub open spec fn bit_at(data: Seq<u8>, i: int) -> bool
    recommends
        0 <= i,
        i / 8 < data.len(),
{
    ((data[i / 8] as u64) >> ((i % 8) as u64)) & 1 == 1
}

/// The `0`/`1` rendering of the first `nbits` bits of a byte string.
pub open spec fn bits_string(data: Seq<u8>, nbits: int) -> Seq<char>
    decreases nbits,
{
    if nbits <= 0 {
        Seq::empty()
    } else {
        bits_string(data, nbits - 1).push(
            if bit_at(data, nbits - 1) {
                '1'
            } else {
                '0'
            },
        )
    }
}

/// Renders the first `nbits` bits of `data` between brackets, lowest bit
/// of each byte first.
pub fn print_nbits(data: &Vec<u8>, nbits: usize) -> (s: String)
    requires
        nbits <= 8 * data@.len(),
    ensures
        s@ == seq!['['] + bits_string(data@, nbits as int) + seq![']'],
{
    let mut s = String::new();
    s.push('[');
    let mut i: usize = 0;
    while i < nbits
        invariant
            0 <= i <= nbits,
            nbits <= 8 * data@.len(),
            s@ == seq!['['] + bits_string(data@, i as int),
        decreases nbits - i,
    {
        let byte = i / 8;
        let bit = i % 8;
        let num = if ((data[byte] as u64) >> (bit as u64)) & 1 == 1 {
            '1'
        } else {
            '0'
        };
        s.push(num);
        i += 1;
    }
    s.push(']');
    s
}

/// Reports what the final fold step of the all-zero scan yields: whether
/// the last byte is zero (`false` for an empty vector).
pub fn is_zero_bits(v: &Vec<u8>) -> (r: bool)
    ensures
        r == (v@.len() > 0 && v@.last() == 0),
{
    let mut r = false;
    let mut i: usize = 0;
    while i < v.len()
        invariant
            0 <= i <= v@.len(),
            r == (i > 0 && v@[i - 1] == 0),
        decreases v@.len() - i,
    {
        r = v[i] == 0;
        i += 1;
    }
    r
}

/// Reports what the final fold step of the all-ones scan yields: whether
/// the last byte is `0xff` (`false` for an empty vector).
pub fn is_one_bits(v: &Vec<u8>) -> (r: bool)
    ensures
        r == (v@.len() > 0 && v@.last() == 0xff),
{
    let mut r = false;
    let mut i: usize = 0;
    while i < v.len()
        invariant
            0 <= i <= v@.len(),
            r == (i > 0 && v@[i - 1] == 0xff),
        decreases v@.len() - i,
    {
        r = v[i] == 0xff;
        i += 1;
    }
    r
}

/// Lexicographic comparison of the common prefix of two byte strings,
/// starting at position `i`: the first differing byte decides.
pub open spec fn ucmp_be_from(a: Seq<u8>, b: Seq<u8>, i: int) -> core::cmp::Ordering
    decreases a.len() + b.len() - i,
    when 0 <= i
{
    if i >= a.len() || i >= b.len() {
        core::cmp::Ordering::Equal
    } else if a[i] < b[i] {
        core::cmp::Ordering::Less
    } else if a[i] > b[i] {
        core::cmp::Ordering::Greater
    } else {
        ucmp_be_from(a, b, i + 1)
    }
}

/// Compares two big-endian byte vectors: the first differing byte of the
/// common prefix decides; equal prefixes compare equal.
pub fn ucmp_be(a: &Vec<u8>, b: &Vec<u8>) -> (r: core::cmp::Ordering)
    ensures
        r == ucmp_be_from(a@, b@, 0),
{
    let mut i: usize = 0;
    while i < a.len() && i < b.len()
        invariant
            0 <= i,
            ucmp_be_from(a@, b@, 0) == ucmp_be_from(a@, b@, i as int),
        decreases a@.len() + b@.len() - i,
    {
        if a[i] < b[i] {
            return core::cmp::Ordering::Less;
        } else if a[i] > b[i] {
            return core::cmp::Ordering::Greater;
        }
        i += 1;
    }
    core::cmp::Ordering::Equal
}

/// Lexicographic comparison of the common prefix of two byte strings from
/// the top position `i` downwards: the first differing byte decides.
pub open spec fn ucmp_le_from(a: Seq<u8>, b: Seq<u8>, i: int) -> core::cmp::Ordering
    decreases i + 1,
    when i < a.len() && i < b.len()
{
    if i < 0 {
        core::cmp::Ordering::Equal
    } else if a[i] < b[i] {
        core::cmp::Ordering::Less
    } else if a[i] > b[i] {
        core::cmp::Ordering::Greater
    } else {
        ucmp_le_from(a, b, i - 1)
    }
}

/// Compares two little-endian byte vectors: bytes of the common prefix are
/// compared from the highest position downwards.
pub fn ucmp_le(a: &Vec<u8>, b: &Vec<u8>) -> (r: core::cmp::Ordering)
    ensures
        r == ucmp_le_from(
            a@,
            b@,
            (if a@.len() <= b@.len() {
                a@.len()
            } else {
                b@.len()
            }) - 1,
        ),
{
    let m = if a.len() <= b.len() {
        a.len()
    } else {
        b.len()
    };
    let mut i: usize = m;
    while i > 0
        invariant
            0 <= i <= m,
            m <= a@.len(),
            m <= b@.len(),
            (m as int) == if a@.len() <= b@.len() {
                a@.len() as int
            } else {
                b@.len() as int
            },
            ucmp_le_from(a@, b@, m - 1) == ucmp_le_from(a@, b@, i - 1),
        decreases i,
    {
        i -= 1;
        proof {
            assert(ucmp_le_from(a@, b@, m - 1) == ucmp_le_from(a@, b@, i as int));
        }
        if a[i] < b[i] {
            proof {
                assert(ucmp_le_from(a@, b@, i as int) == core::cmp::Ordering::Less);
            }
            return core::cmp::Ordering::Less;
        } else if a[i] > b[i] {
            proof {
                assert(ucmp_le_from(a@, b@, i as int) == core::cmp::Ordering::Greater);
            }
            return core::cmp::Ordering::Greater;
        }
    }
    core::cmp::Ordering::Equal
}

/// Shifts a big-endian byte vector right by `nsh` bits into `dst`.  The
/// `nsh / 8` leading bytes become zero; every other byte combines the low
/// bits of the byte `nsh / 8` places earlier with the carried high bits of
/// its predecessor.  A shift by a whole number of bytes is excluded (a
/// carry of zero bits is not representable in the byte-wise carry scheme),
/// except one past the whole width, which only zeroes.
pub fn ushr_be(src: &Vec<u8>, dst: &mut Vec<u8>, nsh: usize)
    requires
        src@.len() == old(dst)@.len(),
        nsh % 8 != 0 || nsh / 8 >= src@.len(),
    ensures
        final(dst)@.len() == src@.len(),
        forall|i: int|
            0 <= i < (if nsh / 8 >= src@.len() {
                src@.len() as int
            } else {
                (nsh / 8) as int
            }) ==> final(dst)@[i] == 0,
        forall|i: int|
            (if nsh / 8 >= src@.len() {
                src@.len() as int
            } else {
                (nsh / 8) as int
            }) <= i < src@.len() ==> final(dst)@[i] == ((src@[i - nsh / 8] >> ((nsh % 8) as u8))
                | (if i == nsh / 8 {
                0u8
            } else {
                (src@[i - nsh / 8 - 1] << ((8 - nsh % 8) as u8)) as u8
            })),
{
    let len = src.len();
    let nb = if nsh / 8 >= len {
        len
    } else {
        nsh / 8
    };
    let nbits: u8 = (nsh % 8) as u8;
    let mut i: usize = 0;
    while i < nb
        invariant
            0 <= i <= nb <= len,
            len == src@.len(),
            dst@.len() == len,
            forall|l: int| 0 <= l < i ==> dst@[l] == 0,
        decreases nb - i,
    {
        dst[i] = 0;
        i += 1;
    }
    if nb == len {
        return ;
    }
    let lsh: u8 = 8 - nbits;
    let mut tmp: u8 = 0;
    let mut k: usize = 0;
    while k < len - nb
        invariant
            0 <= k <= len - nb,
            nb < len,
            len == src@.len(),
            dst@.len() == len,
            nbits == (nsh % 8) as u8,
            1 <= nbits <= 7,
            lsh == 8 - nbits,
            nb == nsh / 8,
            forall|l: int| 0 <= l < nb ==> dst@[l] == 0,
            tmp == (if k == 0 {
                0u8
            } else {
                (src@[k - 1] << lsh) as u8
            }),
            forall|l: int|
                nb <= l < nb + k ==> dst@[l] == ((src@[l - nb] >> nbits) | (if l == nb {
                    0u8
                } else {
                    (src@[l - nb - 1] << lsh) as u8
                })),
        decreases len - nb - k,
    {
        let x = src[k];
        dst[nb + k] = (x >> nbits) | tmp;
        tmp = x << lsh;
        k += 1;
    }
}

/// Shifts a little-endian byte vector right by `nsh` bits into `dst`.  The
/// `nsh / 8` trailing bytes become zero; every other byte combines the low
/// bits of the byte `nsh / 8` places later with the carried high bits of
/// its successor.  A shift by a whole number of bytes is excluded, except
/// one past the whole width, which only zeroes.
pub fn ushr_le(src: &Vec<u8>, dst: &mut Vec<u8>, nsh: usize)
    requires
        src@.len() == old(dst)@.len(),
        nsh % 8 != 0 || nsh / 8 >= src@.len(),
    ensures
        final(dst)@.len() == src@.len(),
        forall|i: int|
            src@.len() - (if nsh / 8 >= src@.len() {
                src@.len() as int
            } else {
                (nsh / 8) as int
            }) <= i < src@.len() ==> final(dst)@[i] == 0,
        forall|i: int|
            0 <= i < src@.len() - (if nsh / 8 >= src@.len() {
                src@.len() as int
            } else {
                (nsh / 8) as int
            }) ==> final(dst)@[i] == ((src@[i + nsh / 8] >> ((nsh % 8) as u8)) | (if i == src@.len()
                - nsh / 8 - 1 {
                0u8
            } else {
                (src@[i + nsh / 8 + 1] << ((8 - nsh % 8) as u8)) as u8
            })),
{
    let len = src.len();
    let nb = if nsh / 8 >= len {
        len
    } else {
        nsh / 8
    };
    let nbits: u8 = (nsh % 8) as u8;
    let mut i: usize = len;
    while i > len - nb
        invariant
            len - nb <= i <= len,
            nb <= len,
            len == src@.len(),
            dst@.len() == len,
            forall|l: int| i <= l < len ==> dst@[l] == 0,
        decreases i,
    {
        i -= 1;
        dst[i] = 0;
    }
    if nb == len {
        return ;
    }
    let lsh: u8 = 8 - nbits;
    let mut tmp: u8 = 0;
    let mut k: usize = len - nb;
    while k > 0
        invariant
            0 <= k <= len - nb,
            nb < len,
            len == src@.len(),
            dst@.len() == len,
            nbits == (nsh % 8) as u8,
            1 <= nbits <= 7,
            lsh == 8 - nbits,
            nb == nsh / 8,
            forall|l: int| len - nb <= l < len ==> dst@[l] == 0,
            tmp == (if k == len - nb {
                0u8
            } else {
                (src@[nb + k] << lsh) as u8
            }),
            forall|l: int|
                k <= l < len - nb ==> dst@[l] == ((src@[l + nb] >> nbits) | (if l == len - nb
                    - 1 {
                    0u8
                } else {
                    (src@[l + nb + 1] << lsh) as u8
                })),
        decreases k,
    {
        k -= 1;
        let x = src[nb + k];
        dst[k] = (x >> nbits) | tmp;
        tmp = x << lsh;
    }
}

} // verus!
