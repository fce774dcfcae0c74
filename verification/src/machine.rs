//! The response state machine.
//!
//! A transfer is a linear session: each state is consumed to produce the
//! next, so an out-of-order use of the protocol is unrepresentable. The
//! machine holds the per-blob byte ranges of the request; blob `0` is the
//! root and blob `i + 1` is the collection child at offset `i`. A blob
//! whose requested range is empty is never delivered by the server and is
//! skipped; a delivered blob's bytes are verified against the expected
//! hash before they are handed onward.

use vstd::prelude::*;
use crate::ranges::RangeSet;
use crate::hashing::hash_of;
use crate::hashing::hash_bytes;
use crate::hashing::bytes_eq;
use crate::hashing::bytes_dup;

verus! {

/// Totals reported by the terminal state.
#[derive(Debug)]
pub struct Stats {
    /// Payload bytes read from the wire over the whole session.
    pub bytes_read: u64,
}

/// Why a transfer failed.
#[derive(Debug, Clone, Copy, PartialEq, Eq, Structural)]
pub enum GetError {
    /// A delivered blob did not hash to the expected value.
    Verification,
    /// Malformed wire data: a size that does not match the delivery.
    Protocol,
    /// The stream ended before the session was over.
    Transport,
    /// A filesystem operation failed in the caller.
    Resource,
    /// The collection blob or an entry name was rejected.
    Validation,
}

/// One delivered blob: the eight-byte little-endian size header and the
/// payload bytes for the requested suffix of the blob.
#[derive(Debug)]
pub struct WireBlob {
    /// Little-endian total blob size; always eight bytes on the wire.
    pub header: Vec<u8>,
    /// The delivered bytes: the blob from the requested offset to its end.
    pub payload: Vec<u8>,
}

/// The value of an eight-byte little-endian size header.
pub open spec fn le64(s: Seq<u8>) -> int {
    s[0] + 256 * (s[1] + 256 * (s[2] + 256 * (s[3] + 256 * (s[4] + 256 * (s[5] + 256 * (s[6]
        + 256 * s[7]))))))
}

/// Parse an eight-byte little-endian size header.
pub fn parse_le64(h: &Vec<u8>) -> (r: u64)
    requires
        h@.len() == 8,
    ensures
        r as int == le64(h@),
{
    let b0 = h[0] as u64;
    let b1 = h[1] as u64;
    let b2 = h[2] as u64;
    let b3 = h[3] as u64;
    let b4 = h[4] as u64;
    let b5 = h[5] as u64;
    let b6 = h[6] as u64;
    let b7 = h[7] as u64;
    b0 + 256 * (b1 + 256 * (b2 + 256 * (b3 + 256 * (b4 + 256 * (b5 + 256 * (b6 + 256 * b7))))))
}

/// The request-side state every non-terminal machine state carries: the
/// per-blob ranges, the blob the session is at, and the bytes read so far.
pub struct MachineCore {
    /// Requested byte ranges, one per blob; each is empty or `[k, ∞)`.
    pub plan: Vec<RangeSet>,
    /// The blob index the session is at.
    pub cur: usize,
    /// Payload bytes read so far.
    pub bytes_read: u64,
}

impl MachineCore {
    /// Every planned range is empty or a single unbounded suffix.
    pub open spec fn wf(&self) -> bool {
        forall|i: int|
            0 <= i < self.plan@.len() ==> (#[trigger] self.plan@[i]).wf() && self.plan@[i]@.len()
                <= 1
    }

    /// The blob at `i` is requested at all.
    pub open spec fn requested(&self, i: int) -> bool {
        0 <= i < self.plan@.len() && self.plan@[i]@.len() == 1
    }

    /// The offset the request for blob `i` starts at.
    pub open spec fn offset_of(&self, i: int) -> u64 {
        self.plan@[i]@[0]
    }
}

/// The session right after the request was sent.
pub struct AtConnected {
    /// The shared request state, at blob zero.
    pub core: MachineCore,
}

/// About to receive the root blob.
pub struct AtStartRoot {
    /// The shared request state; `cur` is zero.
    pub core: MachineCore,
}

/// About to receive the child blob at `cur - 1`.
pub struct AtStartChild {
    /// The shared request state; `cur` is one past the child offset.
    pub core: MachineCore,
}

/// About to read a blob's size header.
pub struct AtBlobHeader {
    /// The shared request state.
    pub core: MachineCore,
}

/// About to receive a blob's payload.
pub struct AtBlobContent {
    /// The shared request state.
    pub core: MachineCore,
    /// The total blob size announced by the header.
    pub size: u64,
}

/// A blob is finished; the session moves to the next blob or closes.
pub struct AtEndBlob {
    /// The shared request state, still at the finished blob.
    pub core: MachineCore,
}

/// The server has nothing further to send.
pub struct AtClosing {
    /// Payload bytes read over the session.
    pub bytes_read: u64,
}

/// What follows the connect step.
pub enum ConnectedNext {
    /// The session starts at the root blob.
    StartRoot(AtStartRoot),
    /// The request was empty: the session closes at once.
    Closing(AtClosing),
}

/// What follows a finished blob.
pub enum EndBlobNext {
    /// Another blob is within the request.
    MoreChildren(AtStartChild),
    /// All requested blobs are done.
    Closing(AtClosing),
}

impl AtConnected {
    /// Open a session for the given per-blob ranges.
    pub fn new(plan: Vec<RangeSet>) -> (r: AtConnected)
        ensures
            r.core.plan@ == plan@,
            r.core.cur == 0,
            r.core.bytes_read == 0,
    {
        AtConnected { core: MachineCore { plan, cur: 0, bytes_read: 0 } }
    }

    /// Move to the root blob, or close when nothing was requested.
    pub fn next(self) -> (r: ConnectedNext)
        ensures
            self.core.plan@.len() > 0 ==> (r matches ConnectedNext::StartRoot(s) && s.core
                == self.core),
            self.core.plan@.len() == 0 ==> (r matches ConnectedNext::Closing(c) && c.bytes_read
                == self.core.bytes_read),
    {
        if self.core.plan.len() > 0 {
            ConnectedNext::StartRoot(AtStartRoot { core: self.core })
        } else {
            ConnectedNext::Closing(AtClosing { bytes_read: self.core.bytes_read })
        }
    }
}

impl AtStartRoot {
    /// The root was requested: read its header next.
    pub fn next(self) -> (r: AtBlobHeader)
        ensures
            r.core == self.core,
    {
        AtBlobHeader { core: self.core }
    }

    /// The root was not requested: the server sends nothing for it.
    pub fn skip(self) -> (r: AtEndBlob)
        requires
            !self.core.requested(self.core.cur as int),
        ensures
            r.core == self.core,
    {
        AtEndBlob { core: self.core }
    }
}

impl AtStartChild {
    /// The zero-based collection offset of this child.
    pub fn child_offset(&self) -> (r: u64)
        requires
            1 <= self.core.cur,
        ensures
            r as int == self.core.cur - 1,
    {
        (self.core.cur - 1) as u64
    }

    /// The child was requested: read its header next.
    pub fn next(self) -> (r: AtBlobHeader)
        ensures
            r.core == self.core,
    {
        AtBlobHeader { core: self.core }
    }

    /// The child was not requested: the server sends nothing for it.
    pub fn skip(self) -> (r: AtEndBlob)
        requires
            !self.core.requested(self.core.cur as int),
        ensures
            r.core == self.core,
    {
        AtEndBlob { core: self.core }
    }

    /// The offset is past the collection: close the session.
    pub fn finish(self) -> (r: AtClosing)
        ensures
            r.bytes_read == self.core.bytes_read,
    {
        AtClosing { bytes_read: self.core.bytes_read }
    }
}

impl AtBlobHeader {
    /// Read the eight-byte size header.
    pub fn next(self, header: &Vec<u8>) -> (r: (AtBlobContent, u64))
        requires
            header@.len() == 8,
        ensures
            r.0.core == self.core,
            r.0.size == r.1,
            r.1 as int == le64(header@),
    {
        let size = parse_le64(header);
        (AtBlobContent { core: self.core, size }, size)
    }
}

impl AtBlobContent {
    /// Receive and verify this blob's payload. `prefix` is what an earlier
    /// run already wrote for this blob (empty on a fresh download); the
    /// payload must complete it to exactly `size` bytes that hash to
    /// `expected`. Only then does the content leave the machine.
    pub fn write_all(self, expected: &Vec<u8>, prefix: &Vec<u8>, payload: &Vec<u8>) -> (r: Result<
        (AtEndBlob, Vec<u8>),
        GetError,
    >)
        requires
            self.core.bytes_read + payload@.len() <= u64::MAX,
        ensures
            match r {
                Ok((st, content)) => {
                    &&& prefix@.len() + payload@.len() == self.size
                    &&& hash_of(prefix@.add(payload@)) == expected@
                    &&& content@ == prefix@.add(payload@)
                    &&& st.core.plan@ == self.core.plan@
                    &&& st.core.cur == self.core.cur
                    &&& st.core.bytes_read == self.core.bytes_read + payload@.len()
                },
                Err(e) => {
                    &&& (e == GetError::Protocol <==> prefix@.len() + payload@.len()
                        != self.size)
                    &&& (e == GetError::Verification <==> (prefix@.len() + payload@.len()
                        == self.size && hash_of(prefix@.add(payload@)) != expected@))
                    &&& (e == GetError::Protocol || e == GetError::Verification)
                },
            },
            r is Ok <==> (prefix@.len() + payload@.len() == self.size && hash_of(
                prefix@.add(payload@),
            ) == expected@),
    {
        let mut content = bytes_dup(prefix);
        let mut k: usize = 0;
        let plen = payload.len();
        while k < plen
            invariant
                k <= plen,
                plen == payload@.len(),
                content@ =~= prefix@.add(payload@.take(k as int)),
            decreases plen - k,
        {
            let v = payload[k];
            content.push(v);
            proof {
                assert(content@ =~= prefix@.add(payload@.take(k + 1 as int)));
            }
            k = k + 1;
        }
        proof {
            assert(content@ =~= prefix@.add(payload@));
        }
        if content.len() as u64 != self.size {
            return Err(GetError::Protocol);
        }
        let digest = hash_bytes(&content);
        if !bytes_eq(&digest, expected) {
            return Err(GetError::Verification);
        }
        let bytes_read = self.core.bytes_read + plen as u64;
        Ok(
            (
                AtEndBlob {
                    core: MachineCore {
                        plan: self.core.plan,
                        cur: self.core.cur,
                        bytes_read,
                    },
                },
                content,
            ),
        )
    }
}

impl AtEndBlob {
    /// Step to the next blob of the request, or close past the last one.
    pub fn next(self) -> (r: EndBlobNext)
        requires
            self.core.cur < usize::MAX,
        ensures
            self.core.cur + 1 < self.core.plan@.len() ==> (r
                matches EndBlobNext::MoreChildren(s) && s.core.plan@ == self.core.plan@
                && s.core.cur == self.core.cur + 1 && s.core.bytes_read
                == self.core.bytes_read),
            self.core.cur + 1 >= self.core.plan@.len() ==> (r matches EndBlobNext::Closing(c)
                && c.bytes_read == self.core.bytes_read),
    {
        let cur = self.core.cur + 1;
        if cur < self.core.plan.len() {
            EndBlobNext::MoreChildren(
                AtStartChild {
                    core: MachineCore {
                        plan: self.core.plan,
                        cur,
                        bytes_read: self.core.bytes_read,
                    },
                },
            )
        } else {
            EndBlobNext::Closing(AtClosing { bytes_read: self.core.bytes_read })
        }
    }
}

impl AtClosing {
    /// Finish the session and report the totals.
    pub fn next(self) -> (r: Stats)
        ensures
            r.bytes_read == self.bytes_read,
    {
        Stats { bytes_read: self.bytes_read }
    }
}

} // verus!
