//! The collection model: an ordered list of `(name, hash)` entries carried
//! in a single blob.
//!
//! The on-wire form is a varint entry count followed by, per entry, a
//! varint name length, the name bytes, and the 32-byte child hash. Parsing
//! rejects oversized names, names with a NUL, a backslash, a leading slash
//! or a `..` component, all-zero hashes, duplicate names, and any bytes
//! that are not exactly one such record.

use vstd::prelude::*;
use crate::wire::varint_bytes;
use crate::wire::read_varint;
use crate::hashing::bytes_eq;

verus! {

/// Longest accepted entry name, in bytes.
pub const MAX_NAME_LEN: usize = 4096;

/// A `..` path component at position `i` of `name`.
pub open spec fn dotdot_at(name: Seq<u8>, i: int) -> bool {
    &&& 0 <= i
    &&& i + 2 <= name.len()
    &&& name[i] == 46
    &&& name[i + 1] == 46
    &&& (i == 0 || name[i - 1] == 47)
    &&& (i + 2 == name.len() || name[i + 2] == 47)
}

/// A collection entry name is a relative forward-slash path: bounded, no
/// NUL, no backslash, not absolute, and no `..` component.
pub open spec fn name_ok(name: Seq<u8>) -> bool {
    &&& name.len() <= MAX_NAME_LEN
    &&& forall|i: int| 0 <= i < name.len() ==> #[trigger] name[i] != 0 && name[i] != 92
    &&& (name.len() > 0 ==> name[0] != 47)
    &&& forall|i: int| !dotdot_at(name, i)
}

/// A usable child hash: 32 bytes, not all zero.
pub open spec fn hash_ok(hash: Seq<u8>) -> bool {
    &&& hash.len() == 32
    &&& exists|i: int| 0 <= i < hash.len() && (#[trigger] hash[i]) != 0
}

/// All entries valid and no name given twice.
pub open spec fn entries_ok(es: Seq<(Seq<u8>, Seq<u8>)>) -> bool {
    &&& forall|i: int|
        0 <= i < es.len() ==> name_ok(#[trigger] es[i].0) && hash_ok(es[i].1)
    &&& forall|i: int, j: int| 0 <= i < j < es.len() ==> es[i].0 != es[j].0
}

/// Wire form of one entry.
pub open spec fn enc_entry(e: (Seq<u8>, Seq<u8>)) -> Seq<u8> {
    varint_bytes(e.0.len()).add(e.0).add(e.1)
}

/// Wire form of a list of entries.
pub open spec fn enc_entries(es: Seq<(Seq<u8>, Seq<u8>)>) -> Seq<u8>
    decreases es.len(),
{
    if es.len() == 0 {
        Seq::empty()
    } else {
        enc_entry(es[0]).add(enc_entries(es.drop_first()))
    }
}

/// Wire form of a whole collection blob.
pub open spec fn enc_collection(es: Seq<(Seq<u8>, Seq<u8>)>) -> Seq<u8> {
    varint_bytes(es.len()).add(enc_entries(es))
}

/// Appending an entry appends its encoding.
pub proof fn lemma_enc_entries_push(es: Seq<(Seq<u8>, Seq<u8>)>, e: (Seq<u8>, Seq<u8>))
    ensures
        enc_entries(es.push(e)) =~= enc_entries(es).add(enc_entry(e)),
    decreases es.len(),
{
    let q = es.push(e);
    if es.len() == 0 {
        assert(q[0] == e);
        assert(q.drop_first() =~= Seq::<(Seq<u8>, Seq<u8>)>::empty());
        assert(enc_entries(q) == enc_entry(q[0]).add(enc_entries(q.drop_first())));
        assert(enc_entries(q.drop_first()) == Seq::<u8>::empty());
        assert(enc_entries(es) == Seq::<u8>::empty());
    } else {
        assert(q[0] == es[0]);
        assert(q.drop_first() =~= es.drop_first().push(e));
        lemma_enc_entries_push(es.drop_first(), e);
        assert(enc_entries(q) == enc_entry(q[0]).add(enc_entries(q.drop_first())));
        assert(enc_entries(es) == enc_entry(es[0]).add(enc_entries(es.drop_first())));
    }
}

/// Why a collection blob was rejected.
#[derive(Debug, Clone, Copy, PartialEq, Eq, Structural)]
pub enum DecodeError {
    /// The record ended early, or had bytes left over.
    Malformed,
    /// An entry name is too long.
    NameTooLong,
    /// An entry name holds a NUL, a backslash, a leading slash or a `..`
    /// component.
    BadName,
    /// An entry hash is all zero.
    BadHash,
    /// Two entries share one name.
    DuplicateName,
}

/// One collection entry: a relative path and the child blob's hash.
#[derive(Debug)]
pub struct Blob {
    /// Forward-slash relative path; may be empty.
    pub name: Vec<u8>,
    /// The child's 32-byte content hash.
    pub hash: Vec<u8>,
}

/// An ordered list of named child blobs.
#[derive(Debug)]
pub struct Collection {
    blobs: Vec<Blob>,
    total_blobs_size: u64,
}

/// The ghost entries of an entry list.
pub open spec fn blobs_view(bs: Seq<Blob>) -> Seq<(Seq<u8>, Seq<u8>)> {
    Seq::new(bs.len(), |i: int| (bs[i].name@, bs[i].hash@))
}

/// Check one name; `true` exactly when the name is acceptable.
pub fn check_name(name: &Vec<u8>) -> (r: bool)
    ensures
        r == (name_ok(name@) && name@.len() <= MAX_NAME_LEN),
{
    let n = name.len();
    if n > MAX_NAME_LEN {
        return false;
    }
    if n > 0 && name[0] == 47 {
        return false;
    }
    let mut k: usize = 0;
    while k < n
        invariant
            k <= n,
            n == name@.len(),
            forall|i: int| 0 <= i < k ==> #[trigger] name@[i] != 0 && name@[i] != 92,
            forall|i: int| i < k - 2 ==> !dotdot_at(name@, i),
        decreases n - k,
    {
        let b = name[k];
        if b == 0 || b == 92 {
            return false;
        }
        if k >= 2 && name[k - 2] == 46 && name[k - 1] == 46 && (k == 2 || name[k - 3] == 47) && (b
            == 47) {
            proof {
                assert(dotdot_at(name@, k - 2));
            }
            return false;
        }
        k = k + 1;
    }
    if n >= 2 && name[n - 2] == 46 && name[n - 1] == 46 && (n == 2 || name[n - 3] == 47) {
        proof {
            assert(dotdot_at(name@, n - 2));
        }
        return false;
    }
    proof {
        assert forall|i: int| !dotdot_at(name@, i) by {
            if dotdot_at(name@, i) {
                if i + 2 == name@.len() {
                } else {
                    assert(name@[i + 2] == 47);
                }
            }
        }
    }
    true
}

/// Check one hash; `true` exactly when it is 32 bytes and not all zero.
pub fn check_hash(hash: &Vec<u8>) -> (r: bool)
    ensures
        r == hash_ok(hash@),
{
    let n = hash.len();
    if n != 32 {
        return false;
    }
    let mut k: usize = 0;
    while k < n
        invariant
            k <= n,
            n == 32,
            n == hash@.len(),
            forall|i: int| 0 <= i < k ==> hash@[i] == 0,
        decreases n - k,
    {
        if hash[k] != 0 {
            proof {
                assert(0 <= k < hash@.len() && hash@[k as int] != 0);
                assert(hash@.len() == 32);
                assert(exists|i: int| 0 <= i < hash@.len() && (#[trigger] hash@[i]) != 0);
                assert(hash_ok(hash@));
            }
            return true;
        }
        k = k + 1;
    }
    false
}

/// Copy `buf[a..b]` out as a fresh vector.
pub fn copy_range(buf: &Vec<u8>, a: usize, b: usize) -> (r: Vec<u8>)
    requires
        a <= b <= buf@.len(),
    ensures
        r@ =~= buf@.subrange(a as int, b as int),
{
    let mut out: Vec<u8> = Vec::new();
    let mut k: usize = a;
    while k < b
        invariant
            a <= k <= b,
            b <= buf@.len(),
            out@ =~= buf@.subrange(a as int, k as int),
        decreases b - k,
    {
        let v = buf[k];
        out.push(v);
        proof {
            assert(out@ =~= buf@.subrange(a as int, k + 1 as int));
        }
        k = k + 1;
    }
    out
}

/// Entry lists whose encodings can be framed back out: every hash is
/// exactly 32 bytes (the parser always consumes 32 hash bytes).
pub open spec fn framed(es: Seq<(Seq<u8>, Seq<u8>)>) -> bool {
    forall|i: int| 0 <= i < es.len() ==> (#[trigger] es[i]).1.len() == 32
}

/// A framed entry list's encoding has at least one byte per entry.
pub proof fn lemma_enc_entries_min_len(es: Seq<(Seq<u8>, Seq<u8>)>)
    requires
        framed(es),
    ensures
        enc_entries(es).len() >= es.len(),
    decreases es.len(),
{
    if es.len() > 0 {
        assert(framed(es.drop_first())) by {
            assert forall|i: int|
                0 <= i < es.drop_first().len() implies (#[trigger] es.drop_first()[i]).1.len()
                == 32 by {
                assert(es.drop_first()[i] == es[i + 1]);
            }
        }
        lemma_enc_entries_min_len(es.drop_first());
        assert(varint_bytes(es[0].0.len()).len() >= 1);
    }
}

/// What a whole collection encoding pins down: the count varint and the
/// entry bytes after it.
pub proof fn lemma_enc_collection_open(es: Seq<(Seq<u8>, Seq<u8>)>, s: Seq<u8>)
    requires
        enc_collection(es) =~= s,
    ensures
        varint_bytes(es.len()).is_prefix_of(s),
        enc_entries(es) =~= s.skip(varint_bytes(es.len()).len() as int),
        s.len() == varint_bytes(es.len()).len() + enc_entries(es).len(),
{
    let w = varint_bytes(es.len());
    assert(s =~= w.add(enc_entries(es)));
    assert(w.is_prefix_of(s)) by {
        assert(w =~= s.subrange(0, w.len() as int));
    }
    assert(enc_entries(es) =~= s.skip(w.len() as int));
}

/// What a nonempty framed entry list's encoding pins down: the name-length
/// varint, the name bytes, the 32 hash bytes, and the remaining entries.
pub proof fn lemma_enc_entry_open(es: Seq<(Seq<u8>, Seq<u8>)>, s: Seq<u8>)
    requires
        es.len() > 0,
        framed(es),
        enc_entries(es).is_prefix_of(s),
    ensures
        varint_bytes(es[0].0.len()).is_prefix_of(s),
        es[0].0 =~= s.subrange(
            varint_bytes(es[0].0.len()).len() as int,
            (varint_bytes(es[0].0.len()).len() + es[0].0.len()) as int,
        ),
        es[0].1 =~= s.subrange(
            (varint_bytes(es[0].0.len()).len() + es[0].0.len()) as int,
            (varint_bytes(es[0].0.len()).len() + es[0].0.len() + 32) as int,
        ),
        enc_entries(es.drop_first()).is_prefix_of(
            s.skip((varint_bytes(es[0].0.len()).len() + es[0].0.len() + 32) as int),
        ),
        framed(es.drop_first()),
        enc_entry(es[0]).len() == varint_bytes(es[0].0.len()).len() + es[0].0.len() + 32,
        varint_bytes(es[0].0.len()).len() + es[0].0.len() + 32 <= s.len(),
        enc_entries(es).len() == enc_entry(es[0]).len() + enc_entries(es.drop_first()).len(),
{
    let w = varint_bytes(es[0].0.len());
    let nm = es[0].0;
    let hs = es[0].1;
    let ee = enc_entry(es[0]);
    let rest = enc_entries(es.drop_first());
    let e = enc_entries(es);
    assert(e == ee.add(rest));
    assert(ee =~= w.add(nm).add(hs));
    assert(hs.len() == 32);
    assert forall|q: int| 0 <= q < e.len() implies e[q] == s[q] by {
        assert(e =~= s.subrange(0, e.len() as int));
        assert(s.subrange(0, e.len() as int)[q] == s[q]);
    }
    assert(w.is_prefix_of(s)) by {
        assert forall|q: int| 0 <= q < w.len() implies w[q] == s.subrange(0, w.len() as int)[q]
            by {
            assert(e[q] == w[q]);
        }
        assert(w =~= s.subrange(0, w.len() as int));
    }
    let wl = w.len() as int;
    let nl = nm.len() as int;
    assert(nm =~= s.subrange(wl, wl + nl)) by {
        assert forall|q: int| 0 <= q < nl implies nm[q] == s.subrange(wl, wl + nl)[q] by {
            assert(e[wl + q] == nm[q]);
        }
    }
    assert(hs =~= s.subrange(wl + nl, wl + nl + 32)) by {
        assert forall|q: int| 0 <= q < 32 implies hs[q] == s.subrange(wl + nl, wl + nl + 32)[q]
            by {
            assert(e[wl + nl + q] == hs[q]);
        }
    }
    assert(rest.is_prefix_of(s.skip(wl + nl + 32))) by {
        assert forall|q: int|
            0 <= q < rest.len() implies rest[q] == s.skip(wl + nl + 32).subrange(
            0,
            rest.len() as int,
        )[q] by {
            assert(e[wl + nl + 32 + q] == rest[q]);
        }
        assert(rest =~= s.skip(wl + nl + 32).subrange(0, rest.len() as int));
    }
    assert(framed(es.drop_first())) by {
        assert forall|i: int|
            0 <= i < es.drop_first().len() implies (#[trigger] es.drop_first()[i]).1.len()
            == 32 by {
            assert(es.drop_first()[i] == es[i + 1]);
        }
    }
}

/// Frame `n` entries out of the bytes at `pos`: a name-length varint, the
/// name, and 32 hash bytes each. Sound and complete for framed lists; the
/// names are not validated here.
#[verifier::rlimit(100)]
#[verifier::spinoff_prover]
pub fn read_entries(buf: &Vec<u8>, pos: usize, n: usize) -> (r: Option<(Vec<Blob>, usize)>)
    requires
        pos <= buf@.len(),
    ensures
        match r {
            Some((v, np)) => {
                &&& pos <= np <= buf@.len()
                &&& v@.len() == n
                &&& framed(blobs_view(v@))
                &&& enc_entries(blobs_view(v@)) =~= buf@.subrange(pos as int, np as int)
            },
            None => true,
        },
        forall|ts: Seq<(Seq<u8>, Seq<u8>)>|
            (ts.len() == n && framed(ts) && enc_entries(ts).is_prefix_of(
                buf@.skip(pos as int),
            )) ==> (r matches Some(p) && blobs_view(p.0@) =~= ts && p.1 == pos + enc_entries(
                ts,
            ).len()),
    decreases n,
{
    let blen = buf.len();
    if n == 0 {
        let v: Vec<Blob> = Vec::new();
        proof {
            assert(blobs_view(v@) =~= Seq::<(Seq<u8>, Seq<u8>)>::empty());
            assert(enc_entries(blobs_view(v@)) =~= buf@.subrange(pos as int, pos as int));
        }
        return Some((v, pos));
    }
    let head = read_varint(buf, pos);
    proof {
        assert forall|ts: Seq<(Seq<u8>, Seq<u8>)>|
            (ts.len() == n && framed(ts) && enc_entries(ts).is_prefix_of(
                buf@.skip(pos as int),
            )) implies (head matches Some(q) && q.0 as nat == ts[0].0.len() && q.1 == pos
            + varint_bytes(ts[0].0.len()).len()) by {
            lemma_enc_entry_open(ts, buf@.skip(pos as int));
            assert(ts[0].0.len() <= buf@.skip(pos as int).len());
            assert(ts[0].0.len() <= blen as nat);
            let lv: u64 = ts[0].0.len() as u64;
            assert(varint_bytes(lv as nat).is_prefix_of(buf@.skip(pos as int)));
        }
    }
    let (name_len, np) = match head {
        None => {
            return None;
        },
        Some(p) => p,
    };
    if name_len > (blen - np) as u64 {
        proof {
            assert forall|ts: Seq<(Seq<u8>, Seq<u8>)>|
                !(ts.len() == n && framed(ts) && enc_entries(ts).is_prefix_of(
                    buf@.skip(pos as int),
                )) by {
                if ts.len() == n && framed(ts) && enc_entries(ts).is_prefix_of(
                    buf@.skip(pos as int),
                ) {
                    lemma_enc_entry_open(ts, buf@.skip(pos as int));
                }
            }
        }
        return None;
    }
    let nlen = name_len as usize;
    if 32 > blen - (np + nlen) {
        proof {
            assert forall|ts: Seq<(Seq<u8>, Seq<u8>)>|
                !(ts.len() == n && framed(ts) && enc_entries(ts).is_prefix_of(
                    buf@.skip(pos as int),
                )) by {
                if ts.len() == n && framed(ts) && enc_entries(ts).is_prefix_of(
                    buf@.skip(pos as int),
                ) {
                    lemma_enc_entry_open(ts, buf@.skip(pos as int));
                }
            }
        }
        return None;
    }
    let name = copy_range(buf, np, np + nlen);
    let hash = copy_range(buf, np + nlen, np + nlen + 32);
    let after = np + nlen + 32;
    proof {
        assert forall|ts: Seq<(Seq<u8>, Seq<u8>)>|
            (ts.len() == n && framed(ts) && enc_entries(ts).is_prefix_of(
                buf@.skip(pos as int),
            )) implies (name@ =~= ts[0].0 && hash@ =~= ts[0].1 && ts.drop_first().len() == n - 1
            && framed(ts.drop_first()) && enc_entries(ts.drop_first()).is_prefix_of(
            buf@.skip(after as int),
        )) by {
            lemma_enc_entry_open(ts, buf@.skip(pos as int));
            let wl = varint_bytes(ts[0].0.len()).len() as int;
            let nl = ts[0].0.len() as int;
            assert(buf@.skip(pos as int).subrange(wl, wl + nl) =~= buf@.subrange(
                pos + wl,
                pos + wl + nl,
            ));
            assert(buf@.skip(pos as int).subrange(wl + nl, wl + nl + 32) =~= buf@.subrange(
                pos + wl + nl,
                pos + wl + nl + 32,
            ));
            assert(buf@.skip(after as int) =~= buf@.skip(pos as int).skip(wl + nl + 32));
        }
    }
    match read_entries(buf, after, n - 1) {
        None => None,
        Some((mut v, np2)) => {
            let ghost vpre = v@;
            v.insert(0, Blob { name, hash });
            proof {
                assert(blobs_view(v@).drop_first() =~= blobs_view(vpre));
                assert(blobs_view(v@)[0].0 == name@ && blobs_view(v@)[0].1 == hash@);
                assert(framed(blobs_view(v@))) by {
                    assert forall|i: int|
                        0 <= i < blobs_view(v@).len() implies (#[trigger] blobs_view(
                        v@,
                    )[i]).1.len() == 32 by {
                        if i > 0 {
                            assert(blobs_view(v@)[i] == blobs_view(vpre)[i - 1]);
                        }
                    }
                }
                assert(enc_entries(blobs_view(v@)) =~= buf@.subrange(pos as int, np2 as int)) by {
                    let e0 = blobs_view(v@)[0];
                    assert(enc_entries(blobs_view(v@)) == enc_entry(e0).add(
                        enc_entries(blobs_view(vpre)),
                    ));
                    assert(varint_bytes(name@.len()) =~= buf@.subrange(pos as int, np as int));
                    assert(name@ =~= buf@.subrange(np as int, np + nlen));
                    assert(hash@ =~= buf@.subrange(np + nlen, after as int));
                    assert(enc_entry(e0) =~= buf@.subrange(pos as int, after as int));
                    assert(enc_entries(blobs_view(vpre)) =~= buf@.subrange(
                        after as int,
                        np2 as int,
                    ));
                    assert(buf@.subrange(pos as int, np2 as int) =~= buf@.subrange(
                        pos as int,
                        after as int,
                    ).add(buf@.subrange(after as int, np2 as int)));
                    assert(buf@.subrange(pos as int, after as int) =~= buf@.subrange(
                        pos as int,
                        np as int,
                    ).add(buf@.subrange(np as int, np + nlen)).add(
                        buf@.subrange(np + nlen, after as int),
                    ));
                }
                assert forall|ts: Seq<(Seq<u8>, Seq<u8>)>|
                    (ts.len() == n && framed(ts) && enc_entries(ts).is_prefix_of(
                        buf@.skip(pos as int),
                    )) implies (blobs_view(v@) =~= ts && np2 == pos + enc_entries(ts).len()) by {
                    lemma_enc_entry_open(ts, buf@.skip(pos as int));
                    assert(blobs_view(vpre) =~= ts.drop_first());
                    assert(blobs_view(v@)[0] == ts[0]);
                    assert(blobs_view(v@).len() == ts.len());
                    assert forall|i: int|
                        0 <= i < ts.len() implies blobs_view(v@)[i] == ts[i] by {
                        if i > 0 {
                            assert(blobs_view(v@)[i] == blobs_view(v@).drop_first()[i - 1]);
                            assert(ts[i] == ts.drop_first()[i - 1]);
                        }
                    }
                }
            }
            Some((v, np2))
        },
    }
}

impl Collection {
    /// The entries as ghost pairs.
    pub closed spec fn view(&self) -> Seq<(Seq<u8>, Seq<u8>)> {
        blobs_view(self.blobs@)
    }

    /// Parsed collections hold only valid, pairwise distinct names.
    pub open spec fn wf(&self) -> bool {
        entries_ok(self@)
    }

    /// Parse a collection blob. Sound — on success the entries re-encode
    /// exactly to the given bytes and every entry is valid — and complete:
    /// the encoding of any valid, duplicate-free entry list parses back to
    /// exactly that list.
    #[verifier::rlimit(100)]
    #[verifier::spinoff_prover]
    pub fn from_bytes(bytes: &Vec<u8>) -> (r: Result<Collection, DecodeError>)
        ensures
            match r {
                Ok(c) => {
                    &&& c.wf()
                    &&& enc_collection(c@) =~= bytes@
                    &&& c.spec_total_blobs_size() == 0
                },
                Err(_) => true,
            },
            forall|es: Seq<(Seq<u8>, Seq<u8>)>|
                (entries_ok(es) && enc_collection(es) =~= bytes@) ==> (r matches Ok(c) && c@
                    =~= es),
    {
        let blen = bytes.len();
        let head = read_varint(bytes, 0);
        proof {
            assert forall|es: Seq<(Seq<u8>, Seq<u8>)>|
                (entries_ok(es) && enc_collection(es) =~= bytes@) implies (head matches Some(q)
                && q.0 as nat == es.len() && q.1 == varint_bytes(es.len()).len() && es.len()
                <= blen as nat && enc_entries(es).is_prefix_of(bytes@.skip(q.1 as int))) by {
                lemma_enc_collection_open(es, bytes@);
                lemma_enc_entries_min_len(es);
                let lv: u64 = es.len() as u64;
                assert(varint_bytes(lv as nat).is_prefix_of(bytes@.skip(0)));
                assert(bytes@.skip(0) =~= bytes@);
            }
        }
        let (cnt, pos): (u64, usize) = match head {
            None => {
                return Err(DecodeError::Malformed);
            },
            Some(p) => p,
        };
        if cnt > blen as u64 {
            return Err(DecodeError::Malformed);
        }
        let n = cnt as usize;
        let parsed = read_entries(bytes, pos, n);
        proof {
            assert forall|es: Seq<(Seq<u8>, Seq<u8>)>|
                (entries_ok(es) && enc_collection(es) =~= bytes@) implies (parsed matches Some(q)
                && blobs_view(q.0@) =~= es && q.1 == blen) by {
                lemma_enc_collection_open(es, bytes@);
                assert(es.len() == n);
                assert(framed(es));
                assert(enc_entries(es).is_prefix_of(bytes@.skip(pos as int)));
            }
        }
        let (blobs, np2): (Vec<Blob>, usize) = match parsed {
            None => {
                return Err(DecodeError::Malformed);
            },
            Some(p) => p,
        };
        if np2 != blen {
            return Err(DecodeError::Malformed);
        }
        let ghost parsed_view = blobs_view(blobs@);
        proof {
            assert(varint_bytes(cnt as nat) =~= bytes@.subrange(0, pos as int));
            assert(enc_entries(parsed_view) =~= bytes@.subrange(pos as int, blen as int));
            assert(enc_collection(parsed_view) =~= bytes@) by {
                assert(bytes@ =~= bytes@.subrange(0, pos as int).add(
                    bytes@.subrange(pos as int, blen as int),
                ));
            }
        }
        let m = blobs.len();
        let mut k: usize = 0;
        while k < m
            invariant
                k <= m,
                m == blobs@.len(),
                parsed_view == blobs_view(blobs@),
                forall|es: Seq<(Seq<u8>, Seq<u8>)>|
                    (entries_ok(es) && enc_collection(es) =~= bytes@) ==> parsed_view =~= es,
                forall|i: int|
                    0 <= i < k ==> name_ok(#[trigger] parsed_view[i].0) && hash_ok(
                        parsed_view[i].1,
                    ),
            decreases m - k,
        {
            if !check_name(&blobs[k].name) {
                proof {
                    assert forall|es: Seq<(Seq<u8>, Seq<u8>)>|
                        !(entries_ok(es) && enc_collection(es) =~= bytes@) by {
                        if entries_ok(es) && enc_collection(es) =~= bytes@ {
                            assert(parsed_view =~= es);
                            assert(parsed_view[k as int].0 == blobs@[k as int].name@);
                            assert(name_ok(es[k as int].0));
                        }
                    }
                }
                if blobs[k].name.len() > MAX_NAME_LEN {
                    return Err(DecodeError::NameTooLong);
                }
                return Err(DecodeError::BadName);
            }
            if !check_hash(&blobs[k].hash) {
                proof {
                    assert forall|es: Seq<(Seq<u8>, Seq<u8>)>|
                        !(entries_ok(es) && enc_collection(es) =~= bytes@) by {
                        if entries_ok(es) && enc_collection(es) =~= bytes@ {
                            assert(parsed_view =~= es);
                            assert(parsed_view[k as int].1 == blobs@[k as int].hash@);
                            assert(name_ok(es[k as int].0) && hash_ok(es[k as int].1));
                        }
                    }
                }
                return Err(DecodeError::BadHash);
            }
            proof {
                assert(name_ok(blobs@[k as int].name@));
                assert(hash_ok(blobs@[k as int].hash@));
                assert(parsed_view[k as int].0 == blobs@[k as int].name@);
                assert(parsed_view[k as int].1 == blobs@[k as int].hash@);
                assert forall|i: int|
                    0 <= i < k + 1 implies name_ok(#[trigger] parsed_view[i].0) && hash_ok(
                    parsed_view[i].1,
                ) by {
                    if i == k {
                        assert(name_ok(parsed_view[k as int].0));
                        assert(hash_ok(parsed_view[k as int].1));
                    }
                }
            }
            k = k + 1;
        }
        let mut i: usize = 0;
        while i < m
            invariant
                i <= m,
                m == blobs@.len(),
                parsed_view == blobs_view(blobs@),
                forall|es: Seq<(Seq<u8>, Seq<u8>)>|
                    (entries_ok(es) && enc_collection(es) =~= bytes@) ==> parsed_view =~= es,
                forall|a: int, b: int|
                    0 <= a < b < blobs@.len() && a < i ==> parsed_view[a].0 != parsed_view[b].0,
            decreases m - i,
        {
            let mut j: usize = i + 1;
            while j < m
                invariant
                    i < j <= m || (i + 1 == j && j > m),
                    i < m,
                    m == blobs@.len(),
                    parsed_view == blobs_view(blobs@),
                    forall|es: Seq<(Seq<u8>, Seq<u8>)>|
                        (entries_ok(es) && enc_collection(es) =~= bytes@) ==> parsed_view =~= es,
                    forall|b: int| i < b < j ==> parsed_view[i as int].0 != parsed_view[b].0,
                decreases m - j,
            {
                if bytes_eq(&blobs[i].name, &blobs[j].name) {
                    proof {
                        assert(parsed_view[i as int].0 == parsed_view[j as int].0);
                        assert forall|es: Seq<(Seq<u8>, Seq<u8>)>|
                            !(entries_ok(es) && enc_collection(es) =~= bytes@) by {
                            if entries_ok(es) && enc_collection(es) =~= bytes@ {
                                assert(parsed_view =~= es);
                                assert(es[i as int].0 == es[j as int].0);
                            }
                        }
                    }
                    return Err(DecodeError::DuplicateName);
                }
                j = j + 1;
            }
            i = i + 1;
        }
        let c = Collection { blobs, total_blobs_size: 0 };
        Ok(c)
    }

    /// Encode the entries back to the wire form they parse from.
    pub fn encode(&self) -> (r: Vec<u8>)
        ensures
            r@ =~= enc_collection(self@),
    {
        let mut out: Vec<u8> = Vec::new();
        let n = self.blobs.len();
        crate::wire::push_varint(&mut out, n as u64);
        let mut k: usize = 0;
        while k < n
            invariant
                n == self.blobs@.len(),
                k <= n,
                out@ =~= varint_bytes(self@.len()).add(
                    enc_entries(self@.subrange(0, k as int)),
                ),
            decreases n - k,
        {
            let ghost done = self@.subrange(0, k as int);
            crate::wire::push_varint(&mut out, self.blobs[k].name.len() as u64);
            let mut q: usize = 0;
            let nb = self.blobs[k].name.len();
            while q < nb
                invariant
                    n == self.blobs@.len(),
                    k < n,
                    nb == self@[k as int].0.len(),
                    q <= nb,
                    out@ =~= varint_bytes(self@.len()).add(enc_entries(done)).add(
                        varint_bytes(self@[k as int].0.len()),
                    ).add(self@[k as int].0.subrange(0, q as int)),
                    done == self@.subrange(0, k as int),
                decreases nb - q,
            {
                let v = self.blobs[k].name[q];
                out.push(v);
                proof {
                    assert(self@[k as int].0.subrange(0, q + 1 as int) =~= self@[
                        k as int].0.subrange(0, q as int).push(v));
                }
                q = q + 1;
            }
            let mut h: usize = 0;
            let hb = self.blobs[k].hash.len();
            while h < hb
                invariant
                    n == self.blobs@.len(),
                    k < n,
                    hb == self@[k as int].1.len(),
                    h <= hb,
                    out@ =~= varint_bytes(self@.len()).add(enc_entries(done)).add(
                        varint_bytes(self@[k as int].0.len()),
                    ).add(self@[k as int].0).add(self@[k as int].1.subrange(0, h as int)),
                    done == self@.subrange(0, k as int),
                decreases hb - h,
            {
                let v = self.blobs[k].hash[h];
                out.push(v);
                proof {
                    assert(self@[k as int].1.subrange(0, h + 1 as int) =~= self@[
                        k as int].1.subrange(0, h as int).push(v));
                }
                h = h + 1;
            }
            proof {
                assert(self@.subrange(0, k + 1 as int) =~= done.push(self@[k as int]));
                lemma_enc_entries_push(done, self@[k as int]);
                assert(self@[k as int].0.subrange(0, nb as int) =~= self@[k as int].0);
                assert(self@[k as int].1.subrange(0, hb as int) =~= self@[k as int].1);
            }
            k = k + 1;
        }
        proof {
            assert(self@.subrange(0, n as int) =~= self@);
        }
        out
    }

    /// The entries, in collection order.
    pub fn entries(&self) -> (r: &Vec<Blob>)
        ensures
            blobs_view(r@) == self@,
    {
        &self.blobs
    }

    /// How many entries the collection holds.
    pub fn total_entries(&self) -> (r: u64)
        requires
            self@.len() <= u64::MAX,
        ensures
            r == self@.len(),
    {
        self.blobs.len() as u64
    }

    /// The sum of child sizes, as learned from the response headers; zero
    /// until the driver sets it.
    pub fn total_blobs_size(&self) -> (r: u64)
        ensures
            r == self.spec_total_blobs_size(),
    {
        self.total_blobs_size
    }

    /// Ghost view of the recorded total size.
    pub closed spec fn spec_total_blobs_size(&self) -> u64 {
        self.total_blobs_size
    }

    /// Record the sum of child sizes from the response headers.
    pub fn set_total_blobs_size(&mut self, size: u64)
        ensures
            final(self)@ == old(self)@,
            final(self).spec_total_blobs_size() == size,
    {
        self.total_blobs_size = size;
    }

    /// Give the entries away.
    pub fn into_inner(self) -> (r: Vec<Blob>)
        ensures
            blobs_view(r@) == self@,
    {
        self.blobs
    }
}

} // verus!
