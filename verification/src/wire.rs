//! Wire encoding of range requests.
//!
//! All lengths and scalars are little-endian base-128 varints. A single
//! blob's chunk ranges travel as a count followed by delta-encoded
//! boundaries (first delta from zero, later deltas strictly positive), and a
//! whole request's per-blob ranges travel as a run-length list of
//! `(count, ranges)` pairs that is read until the end of the record.

use vstd::prelude::*;
use crate::ranges::RangeSet;
use crate::ranges::strictly_sorted;

verus! {

/// Little-endian base-128 varint encoding of `x`.
pub open spec fn varint_bytes(x: nat) -> Seq<u8>
    decreases x,
{
    if x < 128 {
        seq![x as u8]
    } else {
        proof {
            assert(x / 128 < x) by (nonlinear_arith)
                requires
                    x >= 128,
            ;
        }
        seq![(x % 128 + 128) as u8].add(varint_bytes(x / 128))
    }
}

/// A varint determines itself: two varints that open the same byte string
/// encode the same value.
pub proof fn lemma_varint_unique(a: nat, b: nat, s: Seq<u8>)
    requires
        varint_bytes(a).is_prefix_of(s),
        varint_bytes(b).is_prefix_of(s),
    ensures
        a == b,
    decreases a,
{
    assert(varint_bytes(a)[0] == s[0]);
    assert(varint_bytes(b)[0] == s[0]);
    if a < 128 && b < 128 {
        assert(s[0] == a as u8);
        assert(s[0] == b as u8);
    } else if a >= 128 && b >= 128 {
        assert(s[0] == (a % 128 + 128) as u8);
        assert(s[0] == (b % 128 + 128) as u8);
        assert(a % 128 < 128 && b % 128 < 128);
        assert(a % 128 == b % 128);
        assert(varint_bytes(a / 128) =~= varint_bytes(a).skip(1));
        assert(varint_bytes(b / 128) =~= varint_bytes(b).skip(1));
        assert(varint_bytes(a / 128).is_prefix_of(s.skip(1)));
        assert(varint_bytes(b / 128).is_prefix_of(s.skip(1)));
        assert(a / 128 < a) by (nonlinear_arith)
            requires
                a >= 128,
        ;
        lemma_varint_unique(a / 128, b / 128, s.skip(1));
        assert(a == 128 * (a / 128) + a % 128) by (nonlinear_arith);
        assert(b == 128 * (b / 128) + b % 128) by (nonlinear_arith);
    } else if a < 128 {
        assert(s[0] == a as u8);
        assert(s[0] == (b % 128 + 128) as u8);
        assert(b % 128 + 128 >= 128);
        assert(false);
    } else {
        assert(s[0] == b as u8);
        assert(s[0] == (a % 128 + 128) as u8);
        assert(a % 128 + 128 >= 128);
        assert(false);
    }
}

/// Append the varint encoding of `x` to `out`.
pub fn push_varint(out: &mut Vec<u8>, x: u64)
    ensures
        final(out)@ =~= old(out)@.add(varint_bytes(x as nat)),
{
    let mut v: u64 = x;
    while v >= 128
        invariant
            old(out)@.add(varint_bytes(x as nat)) =~= out@.add(varint_bytes(v as nat)),
        decreases v,
    {
        out.push((v % 128 + 128) as u8);
        proof {
            assert(v / 128 < v) by (nonlinear_arith)
                requires
                    v >= 128,
            ;
        }
        v = v / 128;
    }
    out.push(v as u8);
}

/// Read one varint at `pos`. Returns the value and the position after it.
pub fn read_varint(buf: &Vec<u8>, pos: usize) -> (r: Option<(u64, usize)>)
    requires
        pos <= buf@.len(),
    ensures
        match r {
            Some((v, np)) => {
                &&& pos < np <= buf@.len()
                &&& varint_bytes(v as nat) =~= buf@.subrange(pos as int, np as int)
            },
            None => true,
        },
        forall|v: u64|
            varint_bytes(v as nat).is_prefix_of(buf@.skip(pos as int)) ==> (r matches Some(p)
                && p.0 == v && p.1 == pos + varint_bytes(v as nat).len()),
    decreases buf@.len() - pos,
{
    if pos >= buf.len() {
        proof {
            assert forall|v: u64| !varint_bytes(v as nat).is_prefix_of(buf@.skip(pos as int)) by {
                assert(varint_bytes(v as nat).len() >= 1);
                assert(buf@.skip(pos as int).len() == 0);
            }
        }
        return None;
    }
    let b = buf[pos];
    proof {
        assert(buf@.skip(pos as int)[0] == b);
    }
    if b < 128 {
        proof {
            assert(varint_bytes(b as nat) =~= seq![b]);
            assert(varint_bytes(b as nat) =~= buf@.subrange(pos as int, pos + 1));
            assert(varint_bytes(b as nat).is_prefix_of(buf@.skip(pos as int)));
            assert forall|v: u64|
                varint_bytes(v as nat).is_prefix_of(buf@.skip(pos as int)) implies b as u64 == v by {
                lemma_varint_unique(v as nat, b as nat, buf@.skip(pos as int));
            }
        }
        Some((b as u64, pos + 1))
    } else {
        let inner = read_varint(buf, pos + 1);
        proof {
            // any varint opening here continues with a varint at pos + 1
            assert forall|w: u64|
                varint_bytes(w as nat).is_prefix_of(buf@.skip(pos as int)) implies w >= 128
                && varint_bytes(((w as nat) / 128) as u64 as nat).is_prefix_of(
                buf@.skip(pos + 1),
            ) && (w as nat) % 128 == (b - 128) as nat by {
                if w < 128 {
                    assert(varint_bytes(w as nat)[0] == w as u8);
                    assert(false);
                }
                assert(varint_bytes(w as nat)[0] == ((w as nat) % 128 + 128) as u8);
                assert((w as nat) % 128 + 128 == b as nat);
                assert((w as nat) / 128 <= w as nat) by (nonlinear_arith);
                assert(buf@.skip(pos + 1) =~= buf@.skip(pos as int).skip(1));
                assert(varint_bytes((w as nat) / 128) =~= varint_bytes(w as nat).skip(1));
                assert(varint_bytes((w as nat) / 128).is_prefix_of(buf@.skip(pos as int).skip(1)));
            }
        }
        match inner {
            None => None,
            Some((hi, np)) => {
                if hi >= 1 && hi <= (u64::MAX - (b as u64 - 128)) / 128 {
                    let v: u64 = (b as u64 - 128) + 128 * hi;
                    proof {
                        assert((b as nat - 128) + 128 * (hi as nat) <= u64::MAX) by (nonlinear_arith)
                            requires
                                hi as nat <= ((u64::MAX - (b - 128) as u64) as nat) / 128,
                                128 <= (b as nat) && (b as nat) < 256,
                        ;
                        assert((v as nat) % 128 == (b - 128) as nat && (v as nat) / 128
                            == hi as nat) by (nonlinear_arith)
                            requires
                                v as nat == (b - 128) as nat + 128 * (hi as nat),
                                128 <= (b as nat) && (b as nat) < 256,
                        ;
                        assert(v >= 128);
                        assert(varint_bytes(v as nat) =~= seq![b].add(varint_bytes(hi as nat)));
                        assert(varint_bytes(hi as nat) =~= buf@.subrange(pos + 1, np as int));
                        assert(varint_bytes(v as nat) =~= buf@.subrange(pos as int, np as int));
                        assert forall|w: u64|
                            varint_bytes(w as nat).is_prefix_of(buf@.skip(pos as int)) implies w
                            == v by {
                            assert(varint_bytes(v as nat).is_prefix_of(buf@.skip(pos as int)));
                            lemma_varint_unique(w as nat, v as nat, buf@.skip(pos as int));
                        }
                    }
                    Some((v, np))
                } else {
                    proof {
                        assert forall|w: u64|
                            !varint_bytes(w as nat).is_prefix_of(buf@.skip(pos as int)) by {
                            if varint_bytes(w as nat).is_prefix_of(buf@.skip(pos as int)) {
                                let whi: u64 = ((w as nat) / 128) as u64;
                                assert(varint_bytes(whi as nat).is_prefix_of(buf@.skip(pos + 1)));
                                assert(hi as nat == (w as nat) / 128);
                                assert(w as nat == 128 * ((w as nat) / 128) + (w as nat)
                                    % 128) by (nonlinear_arith);
                                if hi == 0 {
                                    assert((w as nat) < 128);
                                    assert(false);
                                } else {
                                    assert(hi as nat <= ((u64::MAX - (b - 128) as u64) as nat)
                                        / 128) by (nonlinear_arith)
                                        requires
                                            w as nat == 128 * (hi as nat) + (w as nat) % 128,
                                            w as nat <= u64::MAX,
                                            128 <= (b as nat) && (b as nat) < 256,
                                            (w as nat) % 128 == (b - 128) as nat,
                                    ;
                                    assert(false);
                                }
                            }
                        }
                    }
                    None
                }
            },
        }
    }
}

/// Boundary list `bs` continues ascending after `prev`; the very first
/// boundary may equal `prev` only when `first` (a range may start at zero).
pub open spec fn chained(bs: Seq<u64>, prev: u64, first: bool) -> bool {
    &&& (bs.len() > 0 ==> (if first {
        prev <= bs[0]
    } else {
        prev < bs[0]
    }))
    &&& forall|i: int| #![trigger bs[i]] 0 < i < bs.len() ==> bs[i - 1] < bs[i]
}

/// Delta encoding of an ascending boundary list, relative to `prev`.
pub open spec fn enc_bounds(bs: Seq<u64>, prev: u64) -> Seq<u8>
    decreases bs.len(),
{
    if bs.len() == 0 {
        Seq::empty()
    } else {
        varint_bytes((bs[0] - prev) as nat).add(enc_bounds(bs.drop_first(), bs[0]))
    }
}

/// Wire form of one blob's ranges: a boundary count, then the deltas.
pub open spec fn enc_set(bs: Seq<u64>) -> Seq<u8> {
    varint_bytes(bs.len()).add(enc_bounds(bs, 0))
}

/// Wire form of a run-length list of `(count, ranges)` pairs.
pub open spec fn enc_pairs(ps: Seq<(u64, Seq<u64>)>) -> Seq<u8>
    decreases ps.len(),
{
    if ps.len() == 0 {
        Seq::empty()
    } else {
        varint_bytes(ps[0].0 as nat).add(enc_set(ps[0].1)).add(enc_pairs(ps.drop_first()))
    }
}

/// Every delta costs at least one byte.
pub proof fn lemma_enc_bounds_len(bs: Seq<u64>, prev: u64)
    ensures
        enc_bounds(bs, prev).len() >= bs.len(),
    decreases bs.len(),
{
    if bs.len() > 0 {
        assert(varint_bytes((bs[0] - prev) as nat).len() >= 1);
        lemma_enc_bounds_len(bs.drop_first(), bs[0]);
    }
}

/// A chained list starting from zero is strictly sorted.
pub proof fn lemma_chained_sorted(bs: Seq<u64>)
    requires
        chained(bs, 0, true),
    ensures
        strictly_sorted(bs),
{
    assert forall|i: int, j: int| 0 <= i < j < bs.len() implies bs[i] < bs[j] by {
        crate::ranges::lemma_sorted_step(bs, i, j);
    }
}

/// Whatever chains after `prev` still chains after its own first element.
pub proof fn lemma_chained_tail(bs: Seq<u64>, prev: u64, first: bool)
    requires
        chained(bs, prev, first),
        bs.len() > 0,
    ensures
        chained(bs.drop_first(), bs[0], false),
{
    let rest = bs.drop_first();
    assert forall|i: int| #![trigger rest[i]] 0 < i < rest.len() implies rest[i - 1] < rest[i] by {
        assert(rest[i - 1] == bs[i]);
        assert(rest[i] == bs[i + 1]);
        assert(bs[(i + 1) - 1] < bs[i + 1]);
    }
    if rest.len() > 0 {
        assert(rest[0] == bs[1]);
        assert(bs[1 - 1] < bs[1]);
    }
}

/// Read `n` delta-encoded boundaries at `pos`, continuing from `prev`.
#[verifier::rlimit(100)]
pub fn read_bounds(buf: &Vec<u8>, pos: usize, n: usize, prev: u64, first: bool) -> (r: Option<
    (Vec<u64>, usize),
>)
    requires
        pos <= buf@.len(),
    ensures
        match r {
            Some((v, np)) => {
                &&& pos <= np <= buf@.len()
                &&& v@.len() == n
                &&& chained(v@, prev, first)
                &&& enc_bounds(v@, prev) =~= buf@.subrange(pos as int, np as int)
            },
            None => true,
        },
        forall|bs: Seq<u64>|
            (bs.len() == n && chained(bs, prev, first) && enc_bounds(bs, prev).is_prefix_of(
                buf@.skip(pos as int),
            )) ==> (r matches Some(p) && p.0@ =~= bs && p.1 == pos + enc_bounds(bs, prev).len()),
    decreases n,
{
    if n == 0 {
        let v: Vec<u64> = Vec::new();
        proof {
            assert(enc_bounds(v@, prev) =~= buf@.subrange(pos as int, pos as int));
        }
        return Some((v, pos));
    }
    let head = read_varint(buf, pos);
    proof {
        assert forall|bs: Seq<u64>|
            (bs.len() == n && chained(bs, prev, first) && enc_bounds(bs, prev).is_prefix_of(
                buf@.skip(pos as int),
            )) implies varint_bytes((bs[0] - prev) as nat).is_prefix_of(buf@.skip(pos as int)) by {
            let w = varint_bytes((bs[0] - prev) as nat);
            assert(enc_bounds(bs, prev)[0] == w[0] || w.len() > 0);
            assert forall|q: int| 0 <= q < w.len() implies w[q] == buf@.skip(pos as int)[q] by {
                assert(enc_bounds(bs, prev)[q] == w[q]);
            }
        }
    }
    match head {
        None => None,
        Some((w, np)) => {
            let ok: bool = if first {
                w <= u64::MAX - prev
            } else {
                w >= 1 && w <= u64::MAX - prev
            };
            if !ok {
                proof {
                    assert forall|bs: Seq<u64>|
                        !(bs.len() == n && chained(bs, prev, first) && enc_bounds(
                            bs,
                            prev,
                        ).is_prefix_of(buf@.skip(pos as int))) by {
                        if bs.len() == n && chained(bs, prev, first) && enc_bounds(
                            bs,
                            prev,
                        ).is_prefix_of(buf@.skip(pos as int)) {
                            let d: u64 = (bs[0] - prev) as u64;
                            assert(varint_bytes(d as nat).is_prefix_of(buf@.skip(pos as int)));
                            assert(w == d);
                        }
                    }
                }
                return None;
            }
            let b0: u64 = prev + w;
            if !first && w == 0 {
                return None;
            }
            match read_bounds(buf, np, n - 1, b0, false) {
                None => {
                    proof {
                        assert forall|bs: Seq<u64>|
                            !(bs.len() == n && chained(bs, prev, first) && enc_bounds(
                                bs,
                                prev,
                            ).is_prefix_of(buf@.skip(pos as int))) by {
                            if bs.len() == n && chained(bs, prev, first) && enc_bounds(
                                bs,
                                prev,
                            ).is_prefix_of(buf@.skip(pos as int)) {
                                let d: u64 = (bs[0] - prev) as u64;
                                assert(varint_bytes(d as nat).is_prefix_of(buf@.skip(pos as int)));
                                assert(w == d && np == pos + varint_bytes(d as nat).len());
                                assert(bs[0] == b0);
                                let rest = bs.drop_first();
                                lemma_chained_tail(bs, prev, first);
                                assert(chained(rest, b0, false));
                                assert(enc_bounds(rest, b0).is_prefix_of(buf@.skip(np as int))) by {
                                    let e = enc_bounds(bs, prev);
                                    let vlen = varint_bytes(d as nat).len() as int;
                                    assert(enc_bounds(rest, b0) =~= e.skip(vlen));
                                    assert(buf@.skip(np as int) =~= buf@.skip(pos as int).skip(
                                        vlen,
                                    ));
                                }
                            }
                        }
                    }
                    None
                },
                Some((mut v, np2)) => {
                    let ghost vpre = v@;
                    v.insert(0, b0);
                    proof {
                        assert(v@.drop_first() =~= vpre);
                        assert(enc_bounds(v@, prev) =~= buf@.subrange(pos as int, np2 as int)) by {
                            assert(v@[0] == b0);
                            assert(v@.drop_first() =~= v@.subrange(1, v@.len() as int));
                            assert(enc_bounds(v@.drop_first(), b0) =~= buf@.subrange(
                                np as int,
                                np2 as int,
                            ));
                            assert(varint_bytes((b0 - prev) as nat) =~= buf@.subrange(
                                pos as int,
                                np as int,
                            ));
                        }
                        assert forall|bs: Seq<u64>|
                            (bs.len() == n && chained(bs, prev, first) && enc_bounds(
                                bs,
                                prev,
                            ).is_prefix_of(buf@.skip(pos as int))) implies (v@ =~= bs && np2 == pos
                            + enc_bounds(bs, prev).len()) by {
                            let d: u64 = (bs[0] - prev) as u64;
                            assert(varint_bytes(d as nat).is_prefix_of(buf@.skip(pos as int)));
                            assert(w == d && np == pos + varint_bytes(d as nat).len());
                            assert(bs[0] == b0);
                            let rest = bs.drop_first();
                            lemma_chained_tail(bs, prev, first);
                            assert(chained(rest, b0, false));
                            assert(enc_bounds(rest, b0).is_prefix_of(buf@.skip(np as int))) by {
                                let e = enc_bounds(bs, prev);
                                let vlen = varint_bytes(d as nat).len() as int;
                                assert(enc_bounds(rest, b0) =~= e.skip(vlen));
                                assert(buf@.skip(np as int) =~= buf@.skip(pos as int).skip(vlen));
                            }
                            assert(v@.drop_first() =~= rest);
                            assert(v@ =~= bs);
                        }
                    }
                    Some((v, np2))
                },
            }
        },
    }
}

/// What a set encoding that opens a byte string pins down: its count
/// varint, its chained boundaries, and where each part sits.
pub proof fn lemma_enc_set_open(bs: Seq<u64>, s: Seq<u8>)
    requires
        strictly_sorted(bs),
        enc_set(bs).is_prefix_of(s),
    ensures
        bs.len() <= s.len(),
        varint_bytes(bs.len()).is_prefix_of(s),
        chained(bs, 0, true),
        enc_bounds(bs, 0).is_prefix_of(s.skip(varint_bytes(bs.len()).len() as int)),
        enc_set(bs).len() == varint_bytes(bs.len()).len() + enc_bounds(bs, 0).len(),
        enc_bounds(bs, 0).len() >= bs.len(),
{
    let e = enc_set(bs);
    let w = varint_bytes(bs.len());
    assert(e =~= w.add(enc_bounds(bs, 0)));
    assert(w.is_prefix_of(s)) by {
        assert forall|q: int| 0 <= q < w.len() implies w[q] == s.subrange(0, w.len() as int)[q] by {
            assert(e[q] == w[q]);
            assert(s.subrange(0, e.len() as int)[q] == s[q]);
        }
        assert(w =~= s.subrange(0, w.len() as int));
    }
    lemma_enc_bounds_len(bs, 0);
    let eb = enc_bounds(bs, 0);
    let tail = s.skip(w.len() as int);
    assert(eb.is_prefix_of(tail)) by {
        assert forall|q: int| 0 <= q < eb.len() implies eb[q] == tail.subrange(
            0,
            eb.len() as int,
        )[q] by {
            assert(eb[q] == e[w.len() + q]);
            assert(s.subrange(0, e.len() as int)[w.len() + q] == s[w.len() + q]);
        }
        assert(eb =~= tail.subrange(0, eb.len() as int));
    }
}

/// Read one boundary-count-prefixed range set at `pos`. Sound — the result
/// re-encodes to the consumed bytes — and complete: any well-formed set
/// encoding that opens the remaining bytes is read back exactly.
#[verifier::rlimit(100)]
#[verifier::spinoff_prover]
pub fn read_set(buf: &Vec<u8>, pos: usize) -> (r: Option<(RangeSet, usize)>)
    requires
        pos <= buf@.len(),
    ensures
        match r {
            Some((s, np)) => {
                &&& pos < np <= buf@.len()
                &&& s.wf()
                &&& enc_set(s@) =~= buf@.subrange(pos as int, np as int)
            },
            None => true,
        },
        forall|bs: Seq<u64>|
            (strictly_sorted(bs) && enc_set(bs).is_prefix_of(buf@.skip(pos as int))) ==> (
            r matches Some(p) && p.0@ =~= bs && p.1 == pos + enc_set(bs).len()),
{
    let blen = buf.len();
    let s0 = read_varint(buf, pos);
    match s0 {
        None => {
            proof {
                assert forall|bs: Seq<u64>|
                    !(strictly_sorted(bs) && enc_set(bs).is_prefix_of(buf@.skip(pos as int))) by {
                    if strictly_sorted(bs) && enc_set(bs).is_prefix_of(buf@.skip(pos as int)) {
                        lemma_enc_set_open(bs, buf@.skip(pos as int));
                        assert(bs.len() <= blen as nat);
                        let lv: u64 = bs.len() as u64;
                        assert(varint_bytes(lv as nat).is_prefix_of(buf@.skip(pos as int)));
                    }
                }
            }
            None
        },
        Some((cnt, np)) => {
            proof {
                assert forall|bs: Seq<u64>|
                    (strictly_sorted(bs) && enc_set(bs).is_prefix_of(buf@.skip(pos as int)))
                    implies (cnt as nat == bs.len() && np == pos + varint_bytes(bs.len()).len()
                    && chained(bs, 0, true) && enc_bounds(bs, 0).is_prefix_of(
                    buf@.skip(np as int),
                ) && enc_bounds(bs, 0).len() >= bs.len()) by {
                    lemma_enc_set_open(bs, buf@.skip(pos as int));
                    assert(bs.len() <= blen as nat);
                    let lv: u64 = bs.len() as u64;
                    assert(varint_bytes(lv as nat).is_prefix_of(buf@.skip(pos as int)));
                    let vl = varint_bytes(bs.len()).len() as int;
                    assert(buf@.skip(pos + vl) =~= buf@.skip(pos as int).skip(vl));
                }
            }
            if cnt > (blen - np) as u64 {
                proof {
                    assert forall|bs: Seq<u64>|
                        !(strictly_sorted(bs) && enc_set(bs).is_prefix_of(
                            buf@.skip(pos as int),
                        )) by {
                        if strictly_sorted(bs) && enc_set(bs).is_prefix_of(
                            buf@.skip(pos as int),
                        ) {
                            assert(enc_bounds(bs, 0).len() <= buf@.skip(np as int).len());
                        }
                    }
                }
                return None;
            }
            let n = cnt as usize;
            match read_bounds(buf, np, n, 0, true) {
                None => {
                    proof {
                        assert forall|bs: Seq<u64>|
                            !(strictly_sorted(bs) && enc_set(bs).is_prefix_of(
                                buf@.skip(pos as int),
                            )) by {
                            if strictly_sorted(bs) && enc_set(bs).is_prefix_of(
                                buf@.skip(pos as int),
                            ) {
                                assert(bs.len() == n);
                            }
                        }
                    }
                    None
                },
                Some((v, np2)) => {
                    proof {
                        lemma_chained_sorted(v@);
                    }
                    match RangeSet::from_bounds(v) {
                        None => {
                            proof {
                                assert(false);
                            }
                            None
                        },
                        Some(rs) => {
                            proof {
                                assert(enc_set(rs@) =~= buf@.subrange(pos as int, np2 as int)) by {
                                    assert(varint_bytes(rs@.len()) =~= buf@.subrange(
                                        pos as int,
                                        np as int,
                                    ));
                                    assert(enc_bounds(rs@, 0) =~= buf@.subrange(
                                        np as int,
                                        np2 as int,
                                    ));
                                    assert(buf@.subrange(pos as int, np2 as int) =~= buf@.subrange(
                                        pos as int,
                                        np as int,
                                    ).add(buf@.subrange(np as int, np2 as int)));
                                }
                                assert forall|bs: Seq<u64>|
                                    (strictly_sorted(bs) && enc_set(bs).is_prefix_of(
                                        buf@.skip(pos as int),
                                    )) implies (rs@ =~= bs && np2 == pos + enc_set(bs).len()) by {
                                    assert(bs.len() == n);
                                }
                            }
                            Some((rs, np2))
                        },
                    }
                },
            }
        },
    }
}

/// The ghost pairs behind a run-length list of `(count, ranges)`.
pub open spec fn pairs_view(v: Seq<(u64, RangeSet)>) -> Seq<(u64, Seq<u64>)> {
    Seq::new(v.len(), |i: int| (v[i].0, v[i].1@))
}

/// Every stored range set is well-formed.
pub open spec fn pairs_ok(ps: Seq<(u64, Seq<u64>)>) -> bool {
    forall|i: int| 0 <= i < ps.len() ==> strictly_sorted(#[trigger] ps[i].1)
}

/// What a nonempty pair-list encoding pins down: its leading count varint,
/// its leading set encoding, and the rest.
pub proof fn lemma_enc_pairs_open(ps: Seq<(u64, Seq<u64>)>, s: Seq<u8>)
    requires
        ps.len() > 0,
        pairs_ok(ps),
        enc_pairs(ps) =~= s,
    ensures
        varint_bytes(ps[0].0 as nat).is_prefix_of(s),
        strictly_sorted(ps[0].1),
        enc_set(ps[0].1).is_prefix_of(s.skip(varint_bytes(ps[0].0 as nat).len() as int)),
        enc_pairs(ps.drop_first()) =~= s.skip(
            (varint_bytes(ps[0].0 as nat).len() + enc_set(ps[0].1).len()) as int,
        ),
        pairs_ok(ps.drop_first()),
        s.len() > 0,
{
    let w = varint_bytes(ps[0].0 as nat);
    let es = enc_set(ps[0].1);
    let rest = enc_pairs(ps.drop_first());
    assert(enc_pairs(ps) == w.add(es).add(rest));
    assert(s =~= w.add(es).add(rest));
    assert(w.is_prefix_of(s)) by {
        assert(w =~= s.subrange(0, w.len() as int));
    }
    assert(es.is_prefix_of(s.skip(w.len() as int))) by {
        assert(es =~= s.skip(w.len() as int).subrange(0, es.len() as int));
    }
    assert(rest =~= s.skip((w.len() + es.len()) as int));
    assert forall|i: int|
        0 <= i < ps.drop_first().len() implies strictly_sorted(
        #[trigger] ps.drop_first()[i].1,
    ) by {
        assert(ps.drop_first()[i].1 == ps[i + 1].1);
    }
    assert(w.len() >= 1);
}

/// Read `(count, ranges)` pairs from `pos` to the end of the record. Sound
/// and complete: exactly the well-formed pair lists whose encoding is the
/// remaining bytes are read back.
#[verifier::rlimit(100)]
#[verifier::spinoff_prover]
pub fn read_pairs(buf: &Vec<u8>, pos: usize) -> (r: Option<Vec<(u64, RangeSet)>>)
    requires
        pos <= buf@.len(),
    ensures
        match r {
            Some(v) => {
                &&& pairs_ok(pairs_view(v@))
                &&& enc_pairs(pairs_view(v@)) =~= buf@.skip(pos as int)
            },
            None => true,
        },
        forall|ps: Seq<(u64, Seq<u64>)>|
            (pairs_ok(ps) && enc_pairs(ps) =~= buf@.skip(pos as int)) ==> (r matches Some(v)
                && pairs_view(v@) =~= ps),
    decreases buf@.len() - pos,
{
    if pos == buf.len() {
        let v: Vec<(u64, RangeSet)> = Vec::new();
        proof {
            assert(pairs_view(v@) =~= Seq::<(u64, Seq<u64>)>::empty());
            assert(enc_pairs(pairs_view(v@)) =~= buf@.skip(pos as int));
            assert forall|ps: Seq<(u64, Seq<u64>)>|
                (pairs_ok(ps) && enc_pairs(ps) =~= buf@.skip(pos as int)) implies pairs_view(v@)
                =~= ps by {
                if ps.len() > 0 {
                    lemma_enc_pairs_open(ps, buf@.skip(pos as int));
                    assert(false);
                }
            }
        }
        return Some(v);
    }
    match read_varint(buf, pos) {
        None => {
            proof {
                assert forall|ps: Seq<(u64, Seq<u64>)>|
                    !(pairs_ok(ps) && enc_pairs(ps) =~= buf@.skip(pos as int)) by {
                    if pairs_ok(ps) && enc_pairs(ps) =~= buf@.skip(pos as int) {
                        assert(ps.len() > 0) by {
                            if ps.len() == 0 {
                                assert(buf@.skip(pos as int).len() == 0);
                            }
                        }
                        lemma_enc_pairs_open(ps, buf@.skip(pos as int));
                    }
                }
            }
            None
        },
        Some((cnt, np)) => {
            proof {
                assert forall|ps: Seq<(u64, Seq<u64>)>|
                    (pairs_ok(ps) && enc_pairs(ps) =~= buf@.skip(pos as int)) implies (ps.len()
                    > 0 && cnt == ps[0].0 && np == pos + varint_bytes(ps[0].0 as nat).len()
                    && strictly_sorted(ps[0].1) && enc_set(ps[0].1).is_prefix_of(
                    buf@.skip(np as int),
                )) by {
                    assert(ps.len() > 0) by {
                        if ps.len() == 0 {
                            assert(buf@.skip(pos as int).len() == 0);
                        }
                    }
                    lemma_enc_pairs_open(ps, buf@.skip(pos as int));
                    let vl = varint_bytes(ps[0].0 as nat).len() as int;
                    assert(buf@.skip(pos + vl) =~= buf@.skip(pos as int).skip(vl));
                }
            }
            match read_set(buf, np) {
                None => {
                    proof {
                        assert forall|ps: Seq<(u64, Seq<u64>)>|
                            !(pairs_ok(ps) && enc_pairs(ps) =~= buf@.skip(pos as int)) by {}
                    }
                    None
                },
                Some((rs, np2)) => {
                    proof {
                        assert forall|ps: Seq<(u64, Seq<u64>)>|
                            (pairs_ok(ps) && enc_pairs(ps) =~= buf@.skip(pos as int)) implies (
                        rs@ =~= ps[0].1 && np2 == np + enc_set(ps[0].1).len() && enc_pairs(
                            ps.drop_first(),
                        ) =~= buf@.skip(np2 as int) && pairs_ok(ps.drop_first())) by {
                            lemma_enc_pairs_open(ps, buf@.skip(pos as int));
                            let vl = varint_bytes(ps[0].0 as nat).len() as int;
                            let el = enc_set(ps[0].1).len() as int;
                            assert(buf@.skip(pos + vl + el) =~= buf@.skip(pos as int).skip(
                                vl + el,
                            ));
                        }
                    }
                    match read_pairs(buf, np2) {
                        None => {
                            proof {
                                assert forall|ps: Seq<(u64, Seq<u64>)>|
                                    !(pairs_ok(ps) && enc_pairs(ps) =~= buf@.skip(pos as int))
                                    by {}
                            }
                            None
                        },
                        Some(mut v) => {
                            let ghost vpre = v@;
                            v.insert(0, (cnt, rs));
                            proof {
                                assert(pairs_view(v@).drop_first() =~= pairs_view(vpre));
                                assert(pairs_view(v@)[0] == (cnt, rs@));
                                assert forall|i: int|
                                    0 <= i < pairs_view(v@).len() implies strictly_sorted(
                                    #[trigger] pairs_view(v@)[i].1,
                                ) by {
                                    if i > 0 {
                                        assert(pairs_view(v@)[i].1 == pairs_view(vpre)[i - 1].1);
                                    }
                                }
                                assert(enc_pairs(pairs_view(v@)) =~= buf@.skip(pos as int)) by {
                                    assert(varint_bytes(cnt as nat) =~= buf@.subrange(
                                        pos as int,
                                        np as int,
                                    ));
                                    assert(enc_set(rs@) =~= buf@.subrange(np as int, np2 as int));
                                    assert(enc_pairs(pairs_view(vpre)) =~= buf@.skip(np2 as int));
                                    assert(buf@.skip(pos as int) =~= buf@.subrange(
                                        pos as int,
                                        np as int,
                                    ).add(buf@.subrange(np as int, np2 as int)).add(
                                        buf@.skip(np2 as int),
                                    ));
                                }
                                assert forall|ps: Seq<(u64, Seq<u64>)>|
                                    (pairs_ok(ps) && enc_pairs(ps) =~= buf@.skip(pos as int))
                                    implies pairs_view(v@) =~= ps by {
                                    lemma_enc_pairs_open(ps, buf@.skip(pos as int));
                                    let vl = varint_bytes(ps[0].0 as nat).len() as int;
                                    let el = enc_set(ps[0].1).len() as int;
                                    assert(buf@.skip(pos + vl + el) =~= buf@.skip(
                                        pos as int,
                                    ).skip(vl + el));
                                    assert(np2 == pos + vl + el);
                                    assert(enc_pairs(ps.drop_first()) =~= buf@.skip(np2 as int));
                                    assert(pairs_ok(ps.drop_first()));
                                    assert(pairs_view(vpre) =~= ps.drop_first());
                                    assert(pairs_view(v@)[0] == ps[0]);
                                    assert(pairs_view(v@).len() == ps.len());
                                    assert forall|i: int|
                                        0 <= i < ps.len() implies pairs_view(v@)[i] == ps[i] by {
                                        if i > 0 {
                                            assert(pairs_view(v@)[i] == pairs_view(
                                                v@,
                                            ).drop_first()[i - 1]);
                                            assert(ps[i] == ps.drop_first()[i - 1]);
                                        }
                                    }
                                }
                            }
                            Some(v)
                        },
                    }
                },
            }
        },
    }
}

/// Sum of the run-length counts of a pair list.
pub open spec fn sum_counts(ps: Seq<(u64, Seq<u64>)>) -> int
    decreases ps.len(),
{
    if ps.len() == 0 {
        0
    } else {
        ps[0].0 + sum_counts(ps.drop_first())
    }
}

/// The per-blob range assigned to blob `n`: starting from `cur` (initially
/// the empty range), each pair `(c, v)` repeats the running range `c` more
/// times and then switches to `v`; the last range repeats forever.
pub open spec fn seq_from(ps: Seq<(u64, Seq<u64>)>, cur: Seq<u64>, n: int) -> Seq<u64>
    decreases ps.len(),
{
    if ps.len() == 0 {
        cur
    } else if n < ps[0].0 {
        cur
    } else {
        seq_from(ps.drop_first(), ps[0].1, n - ps[0].0)
    }
}

/// The range requested for blob `n` by a pair list.
pub open spec fn seq_at(ps: Seq<(u64, Seq<u64>)>, n: int) -> Seq<u64> {
    seq_from(ps, Seq::empty(), n)
}

/// Counts never sum to a negative number.
pub proof fn lemma_sum_nonneg(ps: Seq<(u64, Seq<u64>)>)
    ensures
        sum_counts(ps) >= 0,
    decreases ps.len(),
{
    if ps.len() > 0 {
        lemma_sum_nonneg(ps.drop_first());
    }
}

/// Appending a pair adds its count to the sum.
pub proof fn lemma_sum_push(ps: Seq<(u64, Seq<u64>)>, p: (u64, Seq<u64>))
    ensures
        sum_counts(ps.push(p)) == sum_counts(ps) + p.0,
    decreases ps.len(),
{
    let q = ps.push(p);
    if ps.len() == 0 {
        assert(q[0] == p);
        assert(q.drop_first() =~= Seq::<(u64, Seq<u64>)>::empty());
        assert(sum_counts(q) == q[0].0 + sum_counts(q.drop_first()));
        assert(sum_counts(q.drop_first()) == 0);
    } else {
        assert(q[0] == ps[0]);
        assert(q.drop_first() =~= ps.drop_first().push(p));
        lemma_sum_push(ps.drop_first(), p);
        assert(sum_counts(q) == q[0].0 + sum_counts(q.drop_first()));
        assert(sum_counts(ps) == ps[0].0 + sum_counts(ps.drop_first()));
    }
}

/// Past the sum of all counts, the last range repeats forever.
pub proof fn lemma_seq_from_tail(ps: Seq<(u64, Seq<u64>)>, cur: Seq<u64>, n: int)
    requires
        n >= sum_counts(ps),
    ensures
        seq_from(ps, cur, n) == if ps.len() == 0 {
            cur
        } else {
            ps.last().1
        },
    decreases ps.len(),
{
    if ps.len() > 0 {
        lemma_sum_nonneg(ps.drop_first());
        lemma_seq_from_tail(ps.drop_first(), ps[0].1, n - ps[0].0);
        if ps.len() > 1 {
            assert(ps.drop_first().last() == ps.last());
        }
    }
}

/// Appending a pair `(c, v)` keeps every assignment below `sum + c` and
/// assigns `v` from there on.
pub proof fn lemma_seq_from_push(
    ps: Seq<(u64, Seq<u64>)>,
    cur: Seq<u64>,
    c: u64,
    v: Seq<u64>,
    n: int,
)
    ensures
        n < sum_counts(ps) + c ==> seq_from(ps.push((c, v)), cur, n) == seq_from(ps, cur, n),
        n >= sum_counts(ps) + c ==> seq_from(ps.push((c, v)), cur, n) == v,
    decreases ps.len(),
{
    lemma_sum_nonneg(ps);
    if ps.len() == 0 {
        let q = ps.push((c, v));
        assert(q[0] == (c, v));
        if n >= c {
            assert(q.drop_first() =~= Seq::<(u64, Seq<u64>)>::empty());
            assert(seq_from(q, cur, n) == seq_from(q.drop_first(), v, n - c));
            assert(seq_from(q.drop_first(), v, n - c) == v);
        } else {
            assert(seq_from(q, cur, n) == cur);
            assert(seq_from(ps, cur, n) == cur);
        }
    } else {
        let q = ps.push((c, v));
        assert(q[0] == ps[0]);
        lemma_sum_nonneg(ps.drop_first());
        if n < ps[0].0 {
            assert(seq_from(q, cur, n) == cur);
            assert(seq_from(ps, cur, n) == cur);
        } else {
            assert(q.drop_first() =~= ps.drop_first().push((c, v)));
            lemma_seq_from_push(ps.drop_first(), ps[0].1, c, v, n - ps[0].0);
            assert(seq_from(q, cur, n) == seq_from(q.drop_first(), ps[0].1, n - ps[0].0));
            assert(seq_from(ps, cur, n) == seq_from(ps.drop_first(), ps[0].1, n - ps[0].0));
        }
    }
}

/// An ordered request: one range per blob, in blob order, with a repeating
/// tail for all blobs past the end.
#[derive(Debug)]
pub struct RangeSpecSeq {
    pairs: Vec<(u64, RangeSet)>,
}

/// The repeating tail that `RangeSpecSeq::new` assigns: the last given
/// range when it occurs at least twice in a row, otherwise empty.
pub open spec fn new_tail(children: Seq<RangeSet>) -> Seq<u64> {
    if children.len() >= 2 && children[children.len() - 1]@ == children[children.len() - 2]@ {
        children.last()@
    } else {
        Seq::<u64>::empty()
    }
}

impl RangeSpecSeq {
    /// The run-length pairs, as ghost data.
    pub closed spec fn view(&self) -> Seq<(u64, Seq<u64>)> {
        pairs_view(self.pairs@)
    }

    /// All stored range sets are well-formed.
    pub open spec fn wf(&self) -> bool {
        pairs_ok(self@)
    }

    /// The request that asks for every range of every blob.
    pub fn all() -> (r: RangeSpecSeq)
        ensures
            r.wf(),
            forall|n: int| 0 <= n ==> seq_at(r@, n) == seq![0u64],
    {
        let mut pairs: Vec<(u64, RangeSet)> = Vec::new();
        pairs.push((0, RangeSet::all()));
        let r = RangeSpecSeq { pairs };
        proof {
            assert forall|n: int| 0 <= n implies seq_at(r@, n) == seq![0u64] by {
                assert(r@.len() == 1);
                assert(r@[0].0 == 0u64);
                assert(r@[0].1 =~= seq![0u64]);
                assert(r@.drop_first() =~= Seq::<(u64, Seq<u64>)>::empty());
                assert(seq_from(r@, Seq::empty(), n) == seq_from(
                    r@.drop_first(),
                    r@[0].1,
                    n - r@[0].0,
                ));
                assert(seq_from(r@.drop_first(), r@[0].1, n - r@[0].0) == r@[0].1);
            }
        }
        r
    }

    /// The request that asks for nothing at all.
    pub fn none() -> (r: RangeSpecSeq)
        ensures
            r.wf(),
            forall|n: int| seq_at(r@, n) == Seq::<u64>::empty(),
    {
        let pairs: Vec<(u64, RangeSet)> = Vec::new();
        let r = RangeSpecSeq { pairs };
        proof {
            assert(r@ =~= Seq::<(u64, Seq<u64>)>::empty());
        }
        r
    }

    /// Build the request for the given per-blob ranges. The final range
    /// becomes the repeating tail when it is given at least twice in a row;
    /// otherwise every blob past the end gets the empty range.
    pub fn new(children: &Vec<RangeSet>) -> (r: RangeSpecSeq)
        requires
            forall|i: int| 0 <= i < children@.len() ==> (#[trigger] children@[i]).wf(),
        ensures
            r.wf(),
            forall|n: int| 0 <= n < children@.len() ==> seq_at(r@, n) == children@[n]@,
            forall|n: int| n >= children@.len() ==> seq_at(r@, n) == new_tail(children@),
    {
        let n = children.len();
        let mut res: Vec<(u64, RangeSet)> = Vec::new();
        let mut count: u64 = 0;
        let mut prev: RangeSet = RangeSet::empty();
        let mut k: usize = 0;
        while k < n
            invariant
                n == children@.len(),
                k <= n,
                count <= k,
                forall|i: int| 0 <= i < children@.len() ==> (#[trigger] children@[i]).wf(),
                pairs_ok(pairs_view(res@)),
                prev.wf(),
                k == sum_counts(pairs_view(res@)) + count,
                res@.len() == 0 ==> prev@ =~= Seq::<u64>::empty(),
                res@.len() > 0 ==> prev@ == pairs_view(res@).last().1,
                forall|m: int| 0 <= m < k ==> seq_at(pairs_view(res@), m) == children@[m]@,
            decreases n - k,
        {
            if children[k].same_as(&prev) {
                count = count + 1;
                proof {
                    lemma_sum_nonneg(pairs_view(res@));
                    lemma_seq_from_tail(pairs_view(res@), Seq::empty(), k as int);
                }
            } else {
                let dup = children[k].duplicate();
                let dup2 = children[k].duplicate();
                let ghost old_pairs = pairs_view(res@);
                let ghost old_count = count;
                res.push((count, dup));
                count = 1;
                prev = dup2;
                proof {
                    assert(pairs_view(res@) =~= old_pairs.push((old_count, dup@)));
                    lemma_sum_nonneg(old_pairs);
                    lemma_sum_push(old_pairs, (old_count, dup@));
                    assert forall|m: int|
                        0 <= m < k + 1 implies seq_at(pairs_view(res@), m) == children@[m]@ by {
                        lemma_seq_from_push(old_pairs, Seq::empty(), old_count, dup@, m);
                        assert(seq_at(pairs_view(res@), m) == seq_from(
                            old_pairs.push((old_count, dup@)),
                            Seq::empty(),
                            m,
                        ));
                        if m < k {
                            assert(seq_at(old_pairs, m) == seq_from(old_pairs, Seq::empty(), m));
                            assert(seq_at(old_pairs, m) == children@[m]@);
                        } else {
                            assert(m == k);
                            assert(m >= sum_counts(old_pairs) + old_count);
                        }
                    }
                    assert(pairs_view(res@).last().1 == dup@);
                    assert(prev@ == dup@);
                }
            }
            k = k + 1;
        }
        let tail: RangeSet = if n >= 2 && children[n - 1].same_as(&children[n - 2]) {
            children[n - 1].duplicate()
        } else {
            RangeSet::empty()
        };
        proof {
            assert(tail@ == new_tail(children@));
        }
        if tail.same_as(&prev) {
            let r = RangeSpecSeq { pairs: res };
            proof {
                lemma_sum_nonneg(r@);
                assert forall|m: int| m >= n implies seq_at(r@, m) == new_tail(children@) by {
                    lemma_seq_from_tail(r@, Seq::empty(), m);
                }
            }
            r
        } else {
            let ghost old_pairs = pairs_view(res@);
            let ghost old_count = count;
            res.push((count, tail));
            let r = RangeSpecSeq { pairs: res };
            proof {
                assert(r@ =~= old_pairs.push((old_count, new_tail(children@))));
                lemma_sum_nonneg(old_pairs);
                lemma_sum_push(old_pairs, (old_count, new_tail(children@)));
                assert forall|m: int|
                    0 <= m < n implies seq_at(r@, m) == children@[m]@ by {
                    lemma_seq_from_push(
                        old_pairs,
                        Seq::empty(),
                        old_count,
                        new_tail(children@),
                        m,
                    );
                    assert(seq_at(r@, m) == seq_from(
                        old_pairs.push((old_count, new_tail(children@))),
                        Seq::empty(),
                        m,
                    ));
                    assert(m < sum_counts(old_pairs) + old_count);
                    assert(seq_at(old_pairs, m) == seq_from(old_pairs, Seq::empty(), m));
                    assert(seq_at(old_pairs, m) == children@[m]@);
                }
                assert forall|m: int| m >= n implies seq_at(r@, m) == new_tail(children@) by {
                    lemma_seq_from_push(
                        old_pairs,
                        Seq::empty(),
                        old_count,
                        new_tail(children@),
                        m,
                    );
                    lemma_seq_from_tail(r@, Seq::empty(), m);
                }
            }
            r
        }
    }

    /// The range this request assigns to blob `n`.
    pub fn range_for(&self, n: u64) -> (r: RangeSet)
        requires
            self.wf(),
        ensures
            r.wf(),
            r@ == seq_at(self@, n as int),
    {
        let np = self.pairs.len();
        let mut k: usize = 0;
        let mut cur: RangeSet = RangeSet::empty();
        let mut m: u64 = n;
        proof {
            assert(self@.skip(0) =~= self@);
        }
        while k < np
            invariant
                np == self.pairs@.len(),
                k <= np,
                self.wf(),
                cur.wf(),
                seq_from(self@.skip(k as int), cur@, m as int) == seq_at(self@, n as int),
            decreases np - k,
        {
            proof {
                assert(self@.skip(k as int)[0] == self@[k as int]);
                assert(self@.skip(k as int).drop_first() =~= self@.skip(k as int + 1));
            }
            let c = self.pairs[k].0;
            if m < c {
                proof {
                    assert(seq_from(self@.skip(k as int), cur@, m as int) == cur@);
                }
                return cur;
            }
            m = m - c;
            cur = self.pairs[k].1.duplicate();
            proof {
                assert(cur@ == self@[k as int].1);
            }
            k = k + 1;
        }
        proof {
            assert(self@.skip(np as int) =~= Seq::<(u64, Seq<u64>)>::empty());
        }
        cur
    }

    /// Encode the request pairs as wire bytes.
    pub fn encode(&self) -> (r: Vec<u8>)
        requires
            self.wf(),
        ensures
            r@ =~= enc_pairs(self@),
    {
        let np = self.pairs.len();
        let mut out: Vec<u8> = Vec::new();
        let mut k: usize = 0;
        proof {
            assert(self@.skip(0) =~= self@);
        }
        while k < np
            invariant
                np == self.pairs@.len(),
                self.wf(),
                out@.add(enc_pairs(self@.skip(k as int))) =~= enc_pairs(self@),
                k <= np,
            decreases np - k,
        {
            proof {
                assert(self@.skip(k as int)[0] == self@[k as int]);
                assert(self@.skip(k as int).drop_first() =~= self@.skip(k as int + 1));
            }
            let c = self.pairs[k].0;
            push_varint(&mut out, c);
            let nb = self.pairs[k].1.num_bounds();
            push_varint(&mut out, nb as u64);
            let ghost sv = self@[k as int].1;
            let mut i: usize = 0;
            let mut prevb: u64 = 0;
            proof {
                assert(sv.skip(0) =~= sv);
                assert(nb as nat == sv.len());
                assert(enc_set(sv) =~= varint_bytes(sv.len()).add(enc_bounds(sv, 0)));
                assert(enc_pairs(self@.skip(k as int)) =~= varint_bytes(c as nat).add(
                    enc_set(sv),
                ).add(enc_pairs(self@.skip(k as int + 1))));
            }
            while i < nb
                invariant
                    np == self.pairs@.len(),
                    k < np,
                    self.wf(),
                    nb == sv.len(),
                    sv == self@[k as int].1,
                    i <= nb,
                    i == 0 ==> prevb == 0,
                    i > 0 ==> prevb == sv[i - 1],
                    i < nb ==> (if i == 0 {
                        prevb <= sv[i as int]
                    } else {
                        prevb < sv[i as int]
                    }),
                    out@.add(enc_bounds(sv.skip(i as int), prevb)).add(
                        enc_pairs(self@.skip(k as int + 1)),
                    ) =~= enc_pairs(self@),
                decreases nb - i,
            {
                proof {
                    assert(sv.skip(i as int)[0] == sv[i as int]);
                    assert(sv.skip(i as int).drop_first() =~= sv.skip(i as int + 1));
                    if i > 0 {
                        assert(sv[i - 1] < sv[i as int]);
                    }
                }
                let bv = self.pairs[k].1.bound_at(i);
                push_varint(&mut out, bv - prevb);
                prevb = bv;
                i = i + 1;
                proof {
                    if i < nb {
                        assert(sv[i - 1] < sv[i as int]);
                    }
                }
            }
            proof {
                assert(sv.skip(nb as int) =~= Seq::<u64>::empty());
            }
            k = k + 1;
        }
        proof {
            assert(self@.skip(np as int) =~= Seq::<(u64, Seq<u64>)>::empty());
        }
        out
    }

    /// Decode a whole request-pairs record; the bytes must be consumed
    /// exactly. Sound and complete: the result re-encodes to the input, and
    /// every well-formed request that encodes to these bytes is recovered.
    pub fn decode(buf: &Vec<u8>) -> (r: Option<RangeSpecSeq>)
        ensures
            match r {
                Some(v) => v.wf() && enc_pairs(v@) =~= buf@,
                None => true,
            },
            forall|ps: Seq<(u64, Seq<u64>)>|
                (pairs_ok(ps) && enc_pairs(ps) =~= buf@) ==> (r matches Some(v) && v@ =~= ps),
    {
        proof {
            assert(buf@.skip(0) =~= buf@);
        }
        match read_pairs(buf, 0) {
            None => None,
            Some(v) => {
                let r = RangeSpecSeq { pairs: v };
                Some(r)
            },
        }
    }
}


/// Wire form of one request: the raw 32-byte root hash followed by the
/// run-length range pairs.
pub open spec fn enc_request(hash: Seq<u8>, ps: Seq<(u64, Seq<u64>)>) -> Seq<u8> {
    hash.add(enc_pairs(ps))
}

/// Compose the one request record a transfer sends: the root hash and the
/// per-blob ranges.
pub fn encode_request(hash: &Vec<u8>, ranges: &RangeSpecSeq) -> (r: Vec<u8>)
    requires
        hash@.len() == 32,
        ranges.wf(),
    ensures
        r@ =~= enc_request(hash@, ranges@),
{
    let mut out = crate::hashing::bytes_dup(hash);
    let mut enc = ranges.encode();
    out.append(&mut enc);
    out
}

} // verus!
