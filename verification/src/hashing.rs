//! Content hashing and hex names.
//!
//! Every blob is addressed by its BLAKE3 digest. The digest itself is
//! computed by an outside crate and is only named here; everything the
//! driver concludes from it is conditional on two hashes of the same bytes
//! being the same bytes.

use vstd::prelude::*;

verus! {

/// The BLAKE3 digest of a byte string: 32 bytes, a function of the bytes
/// alone.
pub uninterp spec fn hash_of(data: Seq<u8>) -> Seq<u8>;

/// Relies on `iroh_bytes::Hash::new`, which computes the BLAKE3 digest of
/// the given bytes; the result depends on the bytes alone and is 32 bytes.
#[verifier::external_body]
pub(crate) fn hash_bytes(data: &Vec<u8>) -> (r: Vec<u8>)
    ensures
        r@ == hash_of(data@),
        r@.len() == 32,
{
    iroh_bytes::Hash::new(data.as_slice()).as_bytes().to_vec()
}

/// One lower-case hex digit for a value below sixteen.
pub open spec fn hex_digit(n: u8) -> u8 {
    if n < 10 {
        (48 + n) as u8
    } else {
        (87 + n) as u8
    }
}

/// Lower-case hex of a byte string, two digits per byte.
pub open spec fn hex_bytes(data: Seq<u8>) -> Seq<u8> {
    Seq::new(
        data.len() * 2,
        |i: int|
            if i % 2 == 0 {
                hex_digit(data[i / 2] / 16)
            } else {
                hex_digit(data[i / 2] % 16)
            },
    )
}

/// Hex-encode a byte string, as used for temp file names.
pub fn to_hex(data: &Vec<u8>) -> (r: Vec<u8>)
    ensures
        r@ == hex_bytes(data@),
{
    let n = data.len();
    let mut out: Vec<u8> = Vec::new();
    let mut k: usize = 0;
    while k < n
        invariant
            k <= n,
            n == data@.len(),
            out@ =~= hex_bytes(data@).take(2 * k as int),
        decreases n - k,
    {
        let b = data[k];
        let hi = b / 16;
        let lo = b % 16;
        let hd: u8 = if hi < 10 {
            48 + hi
        } else {
            87 + hi
        };
        let ld: u8 = if lo < 10 {
            48 + lo
        } else {
            87 + lo
        };
        out.push(hd);
        out.push(ld);
        proof {
            assert(out@ =~= hex_bytes(data@).take(2 * (k + 1) as int));
        }
        k = k + 1;
    }
    proof {
        assert(out@ =~= hex_bytes(data@));
    }
    out
}

/// Byte-wise equality of two byte strings.
pub fn bytes_eq(a: &Vec<u8>, b: &Vec<u8>) -> (r: bool)
    ensures
        r == (a@ =~= b@),
{
    let n = a.len();
    if n != b.len() {
        return false;
    }
    let mut k: usize = 0;
    while k < n
        invariant
            k <= n,
            n == a@.len(),
            n == b@.len(),
            forall|i: int| 0 <= i < k ==> a@[i] == b@[i],
        decreases n - k,
    {
        if a[k] != b[k] {
            return false;
        }
        k = k + 1;
    }
    proof {
        assert(a@ =~= b@);
    }
    true
}

/// Copy a byte string.
pub fn bytes_dup(a: &Vec<u8>) -> (r: Vec<u8>)
    ensures
        r@ =~= a@,
{
    let n = a.len();
    let mut out: Vec<u8> = Vec::new();
    let mut k: usize = 0;
    while k < n
        invariant
            k <= n,
            n == a@.len(),
            out@ =~= a@.take(k as int),
        decreases n - k,
    {
        let v = a[k];
        out.push(v);
        k = k + 1;
    }
    proof {
        assert(out@ =~= a@);
    }
    out
}

} // verus!
