//! The transfer driver.
//!
//! The driver composes the planner, the collection model and the response
//! state machine. It consumes plain values — what the caller found on disk
//! and what the wire delivered — and produces the totals plus an ordered
//! list of filesystem actions. The caller performs the actions in order;
//! every blob is staged in a temp file, synced, and only then renamed to
//! its final path, and the rename is emitted only for content that hashed
//! to the expected value.

use vstd::prelude::*;
use crate::ranges::RangeSet;
use crate::planner::BlobStatus;
use crate::planner::get_missing_range;
use crate::collection::Collection;
use crate::machine::AtConnected;
use crate::machine::ConnectedNext;
use crate::machine::EndBlobNext;
use crate::machine::GetError;
use crate::machine::Stats;
use crate::machine::WireBlob;
use crate::machine::le64;
use crate::hashing::hash_of;
use crate::hashing::hex_bytes;
use crate::hashing::to_hex;
use crate::hashing::bytes_dup;

verus! {

/// One filesystem or output step the caller performs, in list order.
#[derive(Debug)]
pub enum Action {
    /// Ensure the temp directory exists.
    CreateTempDir,
    /// Ensure the output directory exists.
    CreateOutDir,
    /// Ensure the parent directories of `name` exist under the output
    /// directory.
    CreateParentDirs {
        /// Relative forward-slash path of the blob being placed.
        name: Vec<u8>,
    },
    /// Write `bytes` into `temp/<hex>.data.part` starting at `offset`.
    WriteTemp {
        /// Lower-case hex of the blob hash.
        hex: Vec<u8>,
        /// Byte offset the write starts at.
        offset: u64,
        /// The bytes to write.
        bytes: Vec<u8>,
    },
    /// Flush `temp/<hex>.data.part` to stable storage.
    SyncTemp {
        /// Lower-case hex of the blob hash.
        hex: Vec<u8>,
    },
    /// Rename `temp/<hex>.data.part` to `out/<name>`: the commit point.
    Rename {
        /// Lower-case hex of the blob hash.
        hex: Vec<u8>,
        /// Relative path of the final file.
        name: Vec<u8>,
    },
    /// Best-effort removal of `temp/<hex>.outboard.part`.
    RemoveOutboard {
        /// Lower-case hex of the blob hash.
        hex: Vec<u8>,
    },
    /// Persist the collection blob as `temp/<hex>.data.part` for resume.
    WriteTempCollection {
        /// Lower-case hex of the collection hash.
        hex: Vec<u8>,
        /// The collection blob's bytes.
        bytes: Vec<u8>,
    },
    /// Write `bytes` to standard output.
    StdoutWrite {
        /// The bytes to emit.
        bytes: Vec<u8>,
    },
    /// Remove the whole temp directory.
    RemoveTempDir,
}

/// What the caller found on disk before a collection transfer.
#[derive(Debug)]
pub struct DirSnapshot {
    /// The cached collection blob from an earlier run, if any.
    pub collection_bytes: Option<Vec<u8>>,
    /// One status per collection entry, aligned with the cached
    /// collection; ignored when no collection is cached.
    pub children: Vec<BlobStatus>,
}

/// A shareable pointer to one blob or collection on one provider; the
/// provider's addresses stay with the transport in the caller.
#[derive(Debug)]
pub struct Ticket {
    /// The root hash the ticket points at.
    pub hash: Vec<u8>,
}

/// One requested transfer, as the command surface hands it over.
#[derive(Debug)]
pub enum GetInteractive {
    /// Fetch what a ticket points at; tickets always name collections.
    Ticket {
        /// The ticket.
        ticket: Ticket,
        /// Log session keys in the transport.
        keylog: bool,
    },
    /// Fetch a bare hash.
    Hash {
        /// The root hash.
        hash: Vec<u8>,
        /// The root is a single blob, not a collection.
        single: bool,
    },
}

/// The final path of an entry: its name, or the hex hash for a nameless
/// entry.
pub open spec fn target_name(name: Seq<u8>, hex: Seq<u8>) -> Seq<u8> {
    if name.len() == 0 {
        hex
    } else {
        name
    }
}

/// Total payload bytes of the first `k` wire records.
pub open spec fn sum_first(wire: Seq<WireBlob>, k: int) -> int
    decreases k,
{
    if k <= 0 {
        0
    } else {
        sum_first(wire, k - 1) + wire[k - 1].payload@.len()
    }
}

/// Payload sums only grow with more records.
pub proof fn lemma_sum_first_mono(wire: Seq<WireBlob>, a: int, b: int)
    requires
        a <= b,
    ensures
        sum_first(wire, a) <= sum_first(wire, b),
    decreases b - a,
{
    if a < b {
        lemma_sum_first_mono(wire, a, b - 1);
    }
}

/// How many wire records the entries before `j` used: one per entry whose
/// final file was still missing.
pub open spec fn wire_index(sts: Seq<BlobStatus>, j: int) -> int
    decreases j,
{
    if j <= 0 {
        0
    } else {
        wire_index(sts, j - 1) + if sts[j - 1].final_present {
            0int
        } else {
            1int
        }
    }
}

/// With nothing on disk, entry `j` uses wire record `j`.
pub proof fn lemma_wire_index_fresh(sts: Seq<BlobStatus>, j: int)
    requires
        forall|k: int| 0 <= k < j ==> !(#[trigger] sts[k]).final_present,
    ensures
        wire_index(sts, j) == if j <= 0 {
            0int
        } else {
            j
        },
    decreases j,
{
    if j > 0 {
        lemma_wire_index_fresh(sts, j - 1);
    }
}

/// Largest collection blob the driver will assemble in memory: 64 MiB.
pub const MAX_COLLECTION_SIZE: u64 = 67108864;

/// Everything `get_to_file_single` promises, as one statement over the
/// root hash, the disk status, the delivered records and the result.
pub open spec fn single_file_outcome(
    h: Seq<u8>,
    status: BlobStatus,
    wire: Seq<WireBlob>,
    r: Result<(Stats, Vec<Action>), GetError>,
) -> bool {
    &&& (status.final_present ==> (r matches Ok(p) && p.0.bytes_read == 0 && p.1@.len() == 0))
    &&& (!status.final_present ==> ((wire.len() == 0 || wire[0].header@.len() != 8) <==> (r
        matches Err(e) && e == GetError::Transport)))
    &&& ((!status.final_present && wire.len() > 0 && wire[0].header@.len() == 8) ==> {
        let payload = wire[0].payload@;
        let content = status.kept_prefix().add(payload);
        &&& (r is Ok <==> (status.kept_prefix().len() + payload.len() == le64(wire[0].header@)
            && hash_of(content) == h && wire.len() == 1))
        &&& ((r matches Err(e) && e == GetError::Protocol) <==> (status.kept_prefix().len()
            + payload.len() != le64(wire[0].header@) || (status.kept_prefix().len()
            + payload.len() == le64(wire[0].header@) && hash_of(content) == h && wire.len()
            > 1)))
        &&& ((r matches Err(e) && e == GetError::Verification) <==> (status.kept_prefix().len()
            + payload.len() == le64(wire[0].header@) && hash_of(content) != h))
        &&& (r matches Ok(p) ==> {
            let hex = hex_bytes(h);
            &&& p.0.bytes_read == payload.len()
            &&& p.1@.len() == 7
            &&& p.1@[0] is CreateTempDir
            &&& p.1@[1] is CreateOutDir
            &&& (p.1@[2] matches Action::WriteTemp { hex: hx, offset, bytes } && hx@ == hex
                && offset == status.resume_offset() && bytes@ == payload)
            &&& (p.1@[3] matches Action::SyncTemp { hex: hx } && hx@ == hex)
            &&& (p.1@[4] matches Action::Rename { hex: hx, name } && hx@ == hex && name@ == hex)
            &&& (p.1@[5] matches Action::RemoveOutboard { hex: hx } && hx@ == hex)
            &&& p.1@[6] is RemoveTempDir
        })
    })
}

/// Everything `get_to_stdout_single` promises: one record, verified
/// against the root hash, emitted to stdout, nothing else delivered.
pub open spec fn stdout_single_outcome(
    h: Seq<u8>,
    wire: Seq<WireBlob>,
    r: Result<(Stats, Vec<Action>), GetError>,
) -> bool {
    &&& ((wire.len() == 0 || wire[0].header@.len() != 8) <==> (r matches Err(e) && e
        == GetError::Transport))
    &&& ((wire.len() > 0 && wire[0].header@.len() == 8) ==> {
        let payload = wire[0].payload@;
        &&& (r is Ok <==> (payload.len() == le64(wire[0].header@) && hash_of(payload) == h
            && wire.len() == 1))
        &&& ((r matches Err(e) && e == GetError::Protocol) <==> (payload.len() != le64(
            wire[0].header@,
        ) || (payload.len() == le64(wire[0].header@) && hash_of(payload) == h && wire.len()
            > 1)))
        &&& ((r matches Err(e) && e == GetError::Verification) <==> (payload.len() == le64(
            wire[0].header@,
        ) && hash_of(payload) != h))
        &&& (r matches Ok(p) ==> {
            &&& p.0.bytes_read == payload.len()
            &&& p.1@.len() == 1
            &&& (p.1@[0] matches Action::StdoutWrite { bytes } && bytes@ == payload)
        })
    })
}

/// The wire success condition for the still-missing children of entries
/// `ev` with disk statuses `sts`, children starting at wire record `base`:
/// exactly one record per missing child, in order, each completing the
/// kept prefix to the announced size with the entry's hash, and nothing
/// delivered beyond them.
pub open spec fn children_ok(
    ev: Seq<(Seq<u8>, Seq<u8>)>,
    sts: Seq<BlobStatus>,
    wire: Seq<WireBlob>,
    base: int,
) -> bool {
    &&& wire.len() == base + wire_index(sts, ev.len() as int)
    &&& forall|j: int|
        0 <= j < ev.len() && !(#[trigger] sts[j]).final_present ==> {
            let w = base + wire_index(sts, j);
            &&& wire[w].header@.len() == 8
            &&& sts[j].kept_prefix().len() + wire[w].payload@.len() == le64(wire[w].header@)
            &&& hash_of(sts[j].kept_prefix().add(wire[w].payload@)) == ev[j].1
        }
}

/// The full success condition of a collection-to-directory transfer: a
/// decodable, valid collection (cached, or delivered within the size cap
/// and verified against the root hash), statuses for every entry, and a
/// wire that serves exactly the missing children.
pub open spec fn multi_success(h: Seq<u8>, snap: DirSnapshot, wire: Seq<WireBlob>) -> bool {
    match snap.collection_bytes {
        Some(b) => exists|es: Seq<(Seq<u8>, Seq<u8>)>|
            #[trigger] crate::collection::entries_ok(es) && crate::collection::enc_collection(
                es,
            ) =~= b@ && es.len() == snap.children@.len() && children_ok(
                es,
                snap.children@,
                wire,
                0,
            ),
        None => {
            &&& wire.len() > 0
            &&& wire[0].header@.len() == 8
            &&& le64(wire[0].header@) <= MAX_COLLECTION_SIZE
            &&& wire[0].payload@.len() == le64(wire[0].header@)
            &&& hash_of(wire[0].payload@) == h
            &&& exists|es: Seq<(Seq<u8>, Seq<u8>)>|
                #[trigger] crate::collection::entries_ok(es)
                    && crate::collection::enc_collection(es) =~= wire[0].payload@
                    && children_ok(es, fresh_statuses(es.len() as int), wire, 1)
        },
    }
}

/// Staged child actions keep their meaning when a prefix is put in front
/// of the list.
pub proof fn lemma_child_actions_shift(
    ev: Seq<(Seq<u8>, Seq<u8>)>,
    sts: Seq<BlobStatus>,
    wire: Seq<WireBlob>,
    base: int,
    pre: Seq<Action>,
    ca: Seq<Action>,
    m: int,
)
    requires
        child_actions_ok(ev, sts, wire, base, 0, ca, m),
        m == ev.len(),
    ensures
        child_actions_ok(ev, sts, wire, base, pre.len() as int, pre.add(ca), m),
{
    let all = pre.add(ca);
    let plen = pre.len() as int;
    assert forall|j: int|
        0 <= j < m && !(#[trigger] sts[j]).final_present implies child_slot_ok(
        ev,
        sts,
        wire,
        base,
        plen,
        all,
        j,
    ) by {
        assert(child_slot_ok(ev, sts, wire, base, 0, ca, j));
        lemma_wire_index_mono(sts, 0, j);
        lemma_wire_index_mono(sts, j + 1, m);
        assert(wire_index(sts, j + 1) == wire_index(sts, j) + 1);
        let b = 5 * wire_index(sts, j);
        assert(b + 4 < ca.len());
        assert(all[plen + b] == ca[b]);
        assert(all[plen + b + 1] == ca[b + 1]);
        assert(all[plen + b + 2] == ca[b + 2]);
        assert(all[plen + b + 3] == ca[b + 3]);
        assert(all[plen + b + 4] == ca[b + 4]);
    }
}

/// The wire success condition for streaming a collection's children: one
/// full record per entry, in order, each verifying against its entry
/// hash, and nothing delivered beyond them.
pub open spec fn stdout_children_ok(
    ev: Seq<(Seq<u8>, Seq<u8>)>,
    wire: Seq<WireBlob>,
    base: int,
) -> bool {
    &&& wire.len() == base + ev.len()
    &&& forall|j: int|
        0 <= j < ev.len() ==> ((#[trigger] wire[base + j]).header@.len() == 8 && wire[base
            + j].payload@.len() == le64(wire[base + j].header@) && hash_of(
            wire[base + j].payload@,
        ) == ev[j].1)
}

/// The full success condition of a collection-to-stdout transfer: the
/// first record carries a valid collection within the size cap verified
/// against the root hash, and the rest serve exactly its children.
pub open spec fn stdout_multi_success(h: Seq<u8>, wire: Seq<WireBlob>) -> bool {
    &&& wire.len() > 0
    &&& wire[0].header@.len() == 8
    &&& le64(wire[0].header@) <= MAX_COLLECTION_SIZE
    &&& wire[0].payload@.len() == le64(wire[0].header@)
    &&& hash_of(wire[0].payload@) == h
    &&& exists|es: Seq<(Seq<u8>, Seq<u8>)>|
        #[trigger] crate::collection::entries_ok(es) && crate::collection::enc_collection(es)
            =~= wire[0].payload@ && stdout_children_ok(es, wire, 1)
}

/// Fetch and verify every child of a collection for streaming, emitting
/// one stdout write per child in collection order. Succeeds exactly when
/// the wire serves one full record per entry and nothing more.
#[verifier::rlimit(100)]
#[verifier::spinoff_prover]
fn run_children_stdout(
    entries: &Vec<crate::collection::Blob>,
    wire: &Vec<WireBlob>,
    base: usize,
) -> (r: Result<(u64, Vec<Action>), GetError>)
    requires
        base <= wire@.len(),
        sum_first(wire@, wire@.len() as int) <= u64::MAX,
    ensures
        (r is Ok <==> stdout_children_ok(
            crate::collection::blobs_view(entries@),
            wire@,
            base as int,
        )),
        match r {
            Ok((bytes, acts)) => {
                &&& acts@.len() == entries@.len()
                &&& (forall|j: int|
                    0 <= j < entries@.len() ==> ((#[trigger] acts@[j])
                        matches Action::StdoutWrite { bytes } && bytes@ == wire@[
                        base + j].payload@))
                &&& bytes == sum_first(wire@, wire@.len() as int) - sum_first(
                    wire@,
                    base as int,
                )
            },
            Err(_) => true,
        },
{
    let m = entries.len();
    let ghost ev = crate::collection::blobs_view(entries@);
    let mut plan: Vec<RangeSet> = Vec::new();
    plan.push(RangeSet::empty());
    let mut k: usize = 0;
    while k < m
        invariant
            k <= m,
            plan@.len() == k + 1,
            plan@[0]@ =~= Seq::<u64>::empty(),
            forall|j: int| 0 <= j < k ==> (#[trigger] plan@[j + 1])@.len() == 1,
        decreases m - k,
    {
        plan.push(RangeSet::suffix(0));
        k = k + 1;
    }
    let plan_count = plan.len();
    proof {
        assert(m + 1 == plan_count);
    }
    let connected = AtConnected::new(plan);
    let root = match connected.next() {
        ConnectedNext::StartRoot(sr) => sr,
        ConnectedNext::Closing(_) => {
            proof {
                assert(false);
            }
            return Err(GetError::Protocol);
        },
    };
    let mut nx: EndBlobNext = root.skip().next();
    let mut actions: Vec<Action> = Vec::new();
    let wlen = wire.len();
    let mut j: usize = 0;
    while j < m
        invariant
            j <= m,
            m == entries@.len(),
            m + 1 <= usize::MAX,
            wlen == wire@.len(),
            base <= wire@.len(),
            base + j <= wire@.len(),
            ev == crate::collection::blobs_view(entries@),
            sum_first(wire@, wire@.len() as int) <= u64::MAX,
            j < m ==> (nx matches EndBlobNext::MoreChildren(sc) && sc.core.cur == j + 1
                && sc.core.plan@.len() == m + 1 && sc.core.bytes_read == sum_first(
                wire@,
                base + j,
            ) - sum_first(wire@, base as int)),
            j == m ==> (nx matches EndBlobNext::Closing(cl) && cl.bytes_read == sum_first(
                wire@,
                base + j,
            ) - sum_first(wire@, base as int)),
            actions@.len() == j,
            forall|i: int|
                0 <= i < j ==> ((#[trigger] actions@[i]) matches Action::StdoutWrite { bytes }
                    && bytes@ == wire@[base + i].payload@ && wire@[base + i].header@.len() == 8
                    && wire@[base + i].payload@.len() == le64(wire@[base + i].header@)
                    && hash_of(wire@[base + i].payload@) == ev[i].1),
        decreases m - j,
    {
        let sc = match nx {
            EndBlobNext::MoreChildren(sc) => sc,
            EndBlobNext::Closing(_) => {
                proof {
                    assert(false);
                }
                return Err(GetError::Protocol);
            },
        };
        let w = base + j;
        if w >= wire.len() {
            proof {
                assert(!stdout_children_ok(ev, wire@, base as int));
            }
            return Err(GetError::Transport);
        }
        if wire[w].header.len() != 8 {
            proof {
                assert(!stdout_children_ok(ev, wire@, base as int)) by {
                    if stdout_children_ok(ev, wire@, base as int) {
                        assert(wire@[base as int + j as int].header@.len() == 8);
                    }
                }
            }
            return Err(GetError::Transport);
        }
        let header = sc.next();
        let (content_state, _size) = header.next(&wire[w].header);
        let nopfx: Vec<u8> = Vec::new();
        proof {
            lemma_sum_first_mono(wire@, w + 1 as int, wire@.len() as int);
            lemma_sum_first_mono(wire@, 0, base as int);
            assert(sum_first(wire@, w + 1 as int) == sum_first(wire@, w as int) + wire@[
                w as int].payload@.len());
        }
        let (end, body) = match content_state.write_all(&entries[j].hash, &nopfx, &wire[w].payload)
            {
            Ok(p) => p,
            Err(e) => {
                proof {
                    assert(!stdout_children_ok(ev, wire@, base as int)) by {
                        if stdout_children_ok(ev, wire@, base as int) {
                            assert(wire@[base as int + j as int].header@.len() == 8);
                            assert(wire@[base as int + j as int].payload@.len() == le64(
                                wire@[base as int + j as int].header@,
                            ));
                            assert(hash_of(wire@[base as int + j as int].payload@) == ev[
                                j as int].1);
                            assert(ev[j as int].1 == entries@[j as int].hash@);
                            assert(nopfx@.add(wire@[w as int].payload@) =~= wire@[
                                w as int].payload@);
                        }
                    }
                }
                return Err(e);
            },
        };
        actions.push(Action::StdoutWrite { bytes: body });
        nx = end.next();
        proof {
            assert(ev[j as int].1 == entries@[j as int].hash@);
            assert(nopfx@.add(wire@[w as int].payload@) =~= wire@[w as int].payload@);
        }
        j = j + 1;
    }
    if base + j != wire.len() {
        proof {
            assert(!stdout_children_ok(ev, wire@, base as int));
        }
        return Err(GetError::Protocol);
    }
    let closing = match nx {
        EndBlobNext::Closing(c) => c,
        EndBlobNext::MoreChildren(_) => {
            proof {
                assert(false);
            }
            return Err(GetError::Protocol);
        },
    };
    let stats = closing.next();
    proof {
        assert(stdout_children_ok(ev, wire@, base as int)) by {
            assert forall|jj: int|
                0 <= jj < ev.len() implies ((#[trigger] wire@[base + jj]).header@.len() == 8
                && wire@[base + jj].payload@.len() == le64(wire@[base + jj].header@) && hash_of(
                wire@[base + jj].payload@,
            ) == ev[jj].1) by {
                assert(actions@[jj] matches Action::StdoutWrite { bytes } && bytes@ == wire@[
                    base + jj].payload@);
            }
        }
    }
    Ok((stats.bytes_read, actions))
}

/// Everything a successful collection-to-directory transfer hands back.
pub open spec fn multi_ok_side(
    h: Seq<u8>,
    snap: DirSnapshot,
    wire: Seq<WireBlob>,
    stats: Stats,
    actions: Vec<Action>,
    c: Collection,
) -> bool {
    &&& c.wf()
    &&& (match snap.collection_bytes {
        Some(b) => {
            let sts = snap.children@;
            let m = c@.len() as int;
            &&& crate::collection::enc_collection(c@) == b@
            &&& sts.len() == m
            &&& child_actions_ok(c@, sts, wire, 0, 0, actions@.drop_last(), m)
            &&& actions@.last() is RemoveTempDir
            &&& stats.bytes_read == sum_first(wire, wire_index(sts, m))
        },
        None => {
            let m = c@.len() as int;
            let sts = fresh_statuses(m);
            &&& wire.len() > 0
            &&& wire[0].header@.len() == 8
            &&& crate::collection::enc_collection(c@) == wire[0].payload@
            &&& hash_of(wire[0].payload@) == h
            &&& le64(wire[0].header@) <= MAX_COLLECTION_SIZE
            &&& actions@[0] is CreateTempDir
            &&& actions@[1] is CreateOutDir
            &&& (actions@[2] matches Action::WriteTempCollection { hex, bytes } && hex@
                == hex_bytes(h) && bytes@ == wire[0].payload@)
            &&& child_actions_ok(c@, sts, wire, 1, 3, actions@.drop_last(), m)
            &&& actions@.last() is RemoveTempDir
            &&& stats.bytes_read == sum_first(wire, 1 + wire_index(sts, m))
        },
    })
}

/// Everything a successful collection-to-stdout transfer hands back.
pub open spec fn stdout_multi_ok_side(
    h: Seq<u8>,
    wire: Seq<WireBlob>,
    stats: Stats,
    actions: Vec<Action>,
    c: Collection,
) -> bool {
    let m = c@.len() as int;
    &&& c.wf()
    &&& wire.len() == 1 + m
    &&& wire[0].header@.len() == 8
    &&& le64(wire[0].header@) <= MAX_COLLECTION_SIZE
    &&& crate::collection::enc_collection(c@) == wire[0].payload@
    &&& hash_of(wire[0].payload@) == h
    &&& actions@.len() == m
    &&& (forall|j: int|
        0 <= j < m ==> ((#[trigger] actions@[j]) matches Action::StdoutWrite { bytes } && bytes@
            == wire[1 + j].payload@ && hash_of(wire[1 + j].payload@) == c@[j].1 && wire[1
            + j].header@.len() == 8 && wire[1 + j].payload@.len() == le64(wire[1 + j].header@)))
    &&& stats.bytes_read == sum_first(wire, 1 + m)
}

/// A dispatcher result without the collection the mode may carry.
pub open spec fn strip_collection(
    r: Result<(Stats, Vec<Action>, Option<Collection>), GetError>,
) -> Result<(Stats, Vec<Action>), GetError> {
    match r {
        Ok(p) => Ok((p.0, p.1)),
        Err(e) => Err(e),
    }
}

/// The collection-to-directory contract as a dispatcher forwards it: the
/// success condition is kept whole, and the collection travels with the
/// result.
pub open spec fn multi_forwarded(
    h: Seq<u8>,
    snap: DirSnapshot,
    wire: Seq<WireBlob>,
    r: Result<(Stats, Vec<Action>, Option<Collection>), GetError>,
) -> bool {
    &&& (r is Ok <==> multi_success(h, snap, wire))
    &&& (r matches Ok(p) ==> (p.2 matches Some(c) && multi_ok_side(h, snap, wire, p.0, p.1, c)))
}

/// The collection-to-stdout contract as a dispatcher forwards it.
pub open spec fn stdout_multi_forwarded(
    h: Seq<u8>,
    wire: Seq<WireBlob>,
    r: Result<(Stats, Vec<Action>, Option<Collection>), GetError>,
) -> bool {
    &&& (r is Ok <==> stdout_multi_success(h, wire))
    &&& (r matches Ok(p) ==> (p.2 matches Some(c) && stdout_multi_ok_side(
        h,
        wire,
        p.0,
        p.1,
        c,
    )))
}

impl GetInteractive {
    /// The root hash this request is about.
    pub open spec fn spec_hash(&self) -> Seq<u8> {
        match self {
            GetInteractive::Ticket { ticket, .. } => ticket.hash@,
            GetInteractive::Hash { hash, .. } => hash@,
        }
    }

    /// Whether the root is a single blob rather than a collection.
    pub open spec fn spec_single(&self) -> bool {
        match self {
            GetInteractive::Ticket { .. } => false,
            GetInteractive::Hash { single, .. } => *single,
        }
    }

    /// A usable request: the root hash has the full 32 bytes.
    pub open spec fn wf(&self) -> bool {
        self.spec_hash().len() == 32
    }

    /// The root hash this request is about.
    pub fn hash(&self) -> (r: Vec<u8>)
        ensures
            r@ == self.spec_hash(),
    {
        match self {
            GetInteractive::Ticket { ticket, .. } => bytes_dup(&ticket.hash),
            GetInteractive::Hash { hash, .. } => bytes_dup(hash),
        }
    }

    /// Whether the root is a single blob rather than a collection.
    pub fn single(&self) -> (r: bool)
        ensures
            r == self.spec_single(),
    {
        match self {
            GetInteractive::Ticket { .. } => false,
            GetInteractive::Hash { single, .. } => *single,
        }
    }

    /// Fetch a single blob into a file.
    ///
    /// When the final file already exists this is a no-op with zero bytes
    /// read. Otherwise exactly one wire record is consumed; its payload
    /// must complete the kept on-disk prefix to bytes that hash to the
    /// root, and only then are the staged write, sync and rename emitted.
    pub fn get_to_file_single(&self, status: &BlobStatus, wire: &Vec<WireBlob>) -> (r: Result<
        (Stats, Vec<Action>),
        GetError,
    >)
        requires
            self.wf(),
            status.resume_offset() <= u64::MAX,
            sum_first(wire@, wire@.len() as int) <= u64::MAX,
        ensures
            single_file_outcome(self.spec_hash(), *status, wire@, r),
    {
        if status.final_present {
            let actions: Vec<Action> = Vec::new();
            return Ok((Stats { bytes_read: 0 }, actions));
        }
        let range = get_missing_range(status);
        let mut plan: Vec<RangeSet> = Vec::new();
        plan.push(range);
        let connected = AtConnected::new(plan);
        let root = match connected.next() {
            ConnectedNext::StartRoot(s) => s,
            ConnectedNext::Closing(_) => {
                proof {
                    assert(false);
                }
                return Err(GetError::Protocol);
            },
        };
        if wire.len() == 0 {
            return Err(GetError::Transport);
        }
        if wire[0].header.len() != 8 {
            return Err(GetError::Transport);
        }
        let header = root.next();
        let (content_state, _size) = header.next(&wire[0].header);
        let expected = self.hash();
        let prefix = match &status.partial {
            Some(p) => {
                if status.outboard_ok {
                    bytes_dup(p)
                } else {
                    Vec::new()
                }
            },
            None => Vec::new(),
        };
        proof {
            assert(prefix@ == status.kept_prefix());
            assert(sum_first(wire@, 1) <= sum_first(wire@, wire@.len() as int)) by {
                lemma_sum_first_mono(wire@, 1, wire@.len() as int);
            }
            assert(sum_first(wire@, 0) == 0);
            assert(sum_first(wire@, 1) == wire@[0].payload@.len());
        }
        let (end, _content) = match content_state.write_all(&expected, &prefix, &wire[0].payload) {
            Ok(p) => p,
            Err(e) => {
                return Err(e);
            },
        };
        if wire.len() > 1 {
            // the request named one blob: anything further violates the
            // wire grammar
            return Err(GetError::Protocol);
        }
        let closing = match end.next() {
            EndBlobNext::Closing(c) => c,
            EndBlobNext::MoreChildren(_) => {
                proof {
                    assert(false);
                }
                return Err(GetError::Protocol);
            },
        };
        let stats = closing.next();
        let hex = to_hex(&expected);
        let mut actions: Vec<Action> = Vec::new();
        actions.push(Action::CreateTempDir);
        actions.push(Action::CreateOutDir);
        let offset = match &status.partial {
            Some(p) => {
                if status.outboard_ok {
                    p.len() as u64
                } else {
                    0
                }
            },
            None => 0,
        };
        actions.push(
            Action::WriteTemp { hex: bytes_dup(&hex), offset, bytes: bytes_dup(&wire[0].payload) },
        );
        actions.push(Action::SyncTemp { hex: bytes_dup(&hex) });
        actions.push(Action::Rename { hex: bytes_dup(&hex), name: bytes_dup(&hex) });
        actions.push(Action::RemoveOutboard { hex: bytes_dup(&hex) });
        actions.push(Action::RemoveTempDir);
        Ok((stats, actions))
    }
}


/// The disk statuses of a transfer nothing was fetched for yet.
pub open spec fn fresh_statuses(m: int) -> Seq<BlobStatus> {
    Seq::new(m as nat, |i: int| BlobStatus { final_present: false, partial: None, outboard_ok: false })
}

/// The five staged actions that place one fetched child, starting at slot
/// `b` of `actions`: parent directories, the temp write at the resume
/// offset, the sync, the rename (the commit point), and the outboard
/// cleanup — with the delivered bytes completing the kept prefix to
/// content that hashes to the entry's hash.
pub open spec fn child_slot_ok(
    ev: Seq<(Seq<u8>, Seq<u8>)>,
    sts: Seq<BlobStatus>,
    wire: Seq<WireBlob>,
    base: int,
    plen: int,
    actions: Seq<Action>,
    j: int,
) -> bool {
    let b = plen + 5 * wire_index(sts, j);
    let hexj = hex_bytes(ev[j].1);
    let w = base + wire_index(sts, j);
    let payload = wire[w].payload@;
    &&& (actions[b] matches Action::CreateParentDirs { name } && name@ == target_name(
        ev[j].0,
        hexj,
    ))
    &&& (actions[b + 1] matches Action::WriteTemp { hex, offset, bytes } && hex@ == hexj
        && offset == sts[j].resume_offset() && bytes@ == payload)
    &&& (actions[b + 2] matches Action::SyncTemp { hex } && hex@ == hexj)
    &&& (actions[b + 3] matches Action::Rename { hex, name } && hex@ == hexj && name@
        == target_name(ev[j].0, hexj))
    &&& (actions[b + 4] matches Action::RemoveOutboard { hex } && hex@ == hexj)
    &&& hash_of(sts[j].kept_prefix().add(payload)) == ev[j].1
    &&& sts[j].kept_prefix().len() + payload.len() == le64(wire[w].header@)
    &&& wire[w].header@.len() == 8
}

/// All children below `upto` are placed: entries whose final file exists
/// get no actions, every other entry gets exactly its five staged actions,
/// in collection order.
pub open spec fn child_actions_ok(
    ev: Seq<(Seq<u8>, Seq<u8>)>,
    sts: Seq<BlobStatus>,
    wire: Seq<WireBlob>,
    base: int,
    plen: int,
    actions: Seq<Action>,
    upto: int,
) -> bool {
    &&& actions.len() == plen + 5 * wire_index(sts, upto)
    &&& forall|j: int|
        0 <= j < upto && !(#[trigger] sts[j]).final_present ==> child_slot_ok(
            ev,
            sts,
            wire,
            base,
            plen,
            actions,
            j,
        )
}

/// Fetch, verify and stage every still-missing child of a collection.
/// `base` is the index of the first wire record that carries a child.
/// Succeeds exactly when the wire holds one record per missing child, in
/// order, each verifying against its entry hash — and nothing more.
/// Returns the consumed payload bytes and the staged actions.
#[verifier::rlimit(100)]
#[verifier::spinoff_prover]
fn run_children(
    entries: &Vec<crate::collection::Blob>,
    statuses: &Vec<BlobStatus>,
    wire: &Vec<WireBlob>,
    base: usize,
) -> (r: Result<(u64, Vec<Action>), GetError>)
    requires
        statuses@.len() == entries@.len(),
        base <= wire@.len(),
        sum_first(wire@, wire@.len() as int) <= u64::MAX,
        forall|j: int|
            0 <= j < statuses@.len() ==> (#[trigger] statuses@[j]).resume_offset() <= u64::MAX,
    ensures
        (r is Ok <==> children_ok(
            crate::collection::blobs_view(entries@),
            statuses@,
            wire@,
            base as int,
        )),
        match r {
            Ok((bytes, acts)) => {
                &&& child_actions_ok(
                    crate::collection::blobs_view(entries@),
                    statuses@,
                    wire@,
                    base as int,
                    0,
                    acts@,
                    entries@.len() as int,
                )
                &&& bytes == sum_first(wire@, wire@.len() as int) - sum_first(
                    wire@,
                    base as int,
                )
            },
            Err(_) => true,
        },
{
    let m = entries.len();
    let ghost ev = crate::collection::blobs_view(entries@);
    let mut actions: Vec<Action> = Vec::new();
    // build the per-blob plan: nothing for the collection itself, then one
    // range per child
    let mut plan: Vec<RangeSet> = Vec::new();
    plan.push(RangeSet::empty());
    let mut k: usize = 0;
    while k < m
        invariant
            k <= m,
            m == statuses@.len(),
            forall|j: int|
                0 <= j < statuses@.len() ==> (#[trigger] statuses@[j]).resume_offset()
                    <= u64::MAX,
            plan@.len() == k + 1,
            plan@[0]@ =~= Seq::<u64>::empty(),
            forall|j: int|
                0 <= j < k ==> ((#[trigger] plan@[j + 1])@.len() == (if statuses@[
                    j].final_present {
                    0int
                } else {
                    1int
                }) && (!statuses@[j].final_present ==> plan@[j + 1]@[0] == statuses@[
                    j].resume_offset())),
        decreases m - k,
    {
        let rg = get_missing_range(&statuses[k]);
        plan.push(rg);
        k = k + 1;
    }
    let plan_count = plan.len();
    proof {
        assert(m + 1 == plan_count);
    }
    let connected = AtConnected::new(plan);
    let root = match connected.next() {
        ConnectedNext::StartRoot(sr) => sr,
        ConnectedNext::Closing(_) => {
            proof {
                assert(false);
            }
            return Err(GetError::Protocol);
        },
    };
    let mut nx: EndBlobNext = root.skip().next();
    let mut j: usize = 0;
    let mut w: usize = base;
    while j < m
        invariant
            j <= m,
            m == statuses@.len(),
            m == entries@.len(),
            m + 1 <= usize::MAX,
            base <= wire@.len(),
            ev == crate::collection::blobs_view(entries@),
            sum_first(wire@, wire@.len() as int) <= u64::MAX,
            forall|i: int|
                0 <= i < statuses@.len() ==> (#[trigger] statuses@[i]).resume_offset()
                    <= u64::MAX,
            w == base + wire_index(statuses@, j as int),
            j < m ==> (nx matches EndBlobNext::MoreChildren(sc) && sc.core.cur == j + 1
                && sc.core.plan@.len() == m + 1 && (forall|i: int|
                0 <= i < m ==> ((#[trigger] sc.core.plan@[i + 1])@.len() == (if statuses@[
                    i].final_present {
                    0int
                } else {
                    1int
                }))) && sc.core.bytes_read == sum_first(wire@, w as int) - sum_first(
                wire@,
                base as int,
            )),
            j == m ==> (nx matches EndBlobNext::Closing(cl) && cl.bytes_read == sum_first(
                wire@,
                w as int,
            ) - sum_first(wire@, base as int)),
            child_actions_ok(ev, statuses@, wire@, base as int, 0, actions@, j as int),
            w <= wire@.len(),
        decreases m - j,
    {
        let sc = match nx {
            EndBlobNext::MoreChildren(sc) => sc,
            EndBlobNext::Closing(_) => {
                proof {
                    assert(false);
                }
                return Err(GetError::Protocol);
            },
        };
        if statuses[j].final_present {
            nx = sc.skip().next();
            proof {
                assert(wire_index(statuses@, j + 1 as int) == wire_index(statuses@, j as int));
            }
        } else {
            if w >= wire.len() {
                proof {
                    assert(!children_ok(ev, statuses@, wire@, base as int)) by {
                        if children_ok(ev, statuses@, wire@, base as int) {
                            lemma_wire_index_mono(statuses@, j + 1 as int, m as int);
                            assert(wire_index(statuses@, j + 1 as int) == wire_index(
                                statuses@,
                                j as int,
                            ) + 1);
                        }
                    }
                }
                return Err(GetError::Transport);
            }
            if wire[w].header.len() != 8 {
                proof {
                    assert(!children_ok(ev, statuses@, wire@, base as int)) by {
                        if children_ok(ev, statuses@, wire@, base as int) {
                            assert(!statuses@[j as int].final_present);
                        }
                    }
                }
                return Err(GetError::Transport);
            }
            let header = sc.next();
            let (content_state, _size) = header.next(&wire[w].header);
            let prefix = match &statuses[j].partial {
                Some(p) => {
                    if statuses[j].outboard_ok {
                        bytes_dup(p)
                    } else {
                        Vec::new()
                    }
                },
                None => Vec::new(),
            };
            proof {
                assert(prefix@ == statuses@[j as int].kept_prefix());
                lemma_sum_first_mono(wire@, w + 1 as int, wire@.len() as int);
                lemma_sum_first_mono(wire@, 0, base as int);
                assert(sum_first(wire@, w + 1 as int) == sum_first(wire@, w as int) + wire@[
                    w as int].payload@.len());
            }
            let (end, _content) = match content_state.write_all(
                &entries[j].hash,
                &prefix,
                &wire[w].payload,
            ) {
                Ok(p) => p,
                Err(e) => {
                    proof {
                        assert(!children_ok(ev, statuses@, wire@, base as int)) by {
                            if children_ok(ev, statuses@, wire@, base as int) {
                                assert(!statuses@[j as int].final_present);
                                assert(ev[j as int].1 == entries@[j as int].hash@);
                            }
                        }
                    }
                    return Err(e);
                },
            };
            let ghost acts_before = actions@;
            let hexj = to_hex(&entries[j].hash);
            let name_j: Vec<u8> = if entries[j].name.len() == 0 {
                bytes_dup(&hexj)
            } else {
                bytes_dup(&entries[j].name)
            };
            let offset = match &statuses[j].partial {
                Some(p) => {
                    if statuses[j].outboard_ok {
                        p.len() as u64
                    } else {
                        0
                    }
                },
                None => 0,
            };
            let mut five: Vec<Action> = Vec::new();
            five.push(Action::CreateParentDirs { name: bytes_dup(&name_j) });
            five.push(
                Action::WriteTemp {
                    hex: bytes_dup(&hexj),
                    offset,
                    bytes: bytes_dup(&wire[w].payload),
                },
            );
            five.push(Action::SyncTemp { hex: bytes_dup(&hexj) });
            five.push(Action::Rename { hex: bytes_dup(&hexj), name: name_j });
            five.push(Action::RemoveOutboard { hex: bytes_dup(&hexj) });
            let ghost fivev = five@;
            actions.append(&mut five);
            w = w + 1;
            nx = end.next();
            proof {
                assert(actions@ == acts_before.add(fivev));
                assert(wire_index(statuses@, j + 1 as int) == wire_index(statuses@, j as int)
                    + 1);
                assert(ev[j as int].1 == entries@[j as int].hash@);
                assert(ev[j as int].0 == entries@[j as int].name@);
                assert(acts_before.len() == 5 * wire_index(statuses@, j as int));
                assert(child_slot_ok(ev, statuses@, wire@, base as int, 0, actions@, j as int))
                    by {
                    assert(actions@[acts_before.len() as int] == fivev[0]);
                    assert(actions@[acts_before.len() as int + 1] == fivev[1]);
                    assert(actions@[acts_before.len() as int + 2] == fivev[2]);
                    assert(actions@[acts_before.len() as int + 3] == fivev[3]);
                    assert(actions@[acts_before.len() as int + 4] == fivev[4]);
                }
                assert forall|i: int|
                    0 <= i < j + 1 && !(#[trigger] statuses@[i]).final_present implies
                child_slot_ok(ev, statuses@, wire@, base as int, 0, actions@, i) by {
                    if i < j {
                        lemma_wire_index_mono(statuses@, i + 1, j as int);
                        lemma_wire_index_mono(statuses@, 0, i);
                        assert(wire_index(statuses@, i + 1) == wire_index(statuses@, i) + 1);
                        let b = 5 * wire_index(statuses@, i);
                        assert(0 <= b);
                        assert(b + 4 < acts_before.len());
                        assert(child_slot_ok(
                            ev,
                            statuses@,
                            wire@,
                            base as int,
                            0,
                            acts_before,
                            i,
                        ));
                        assert(actions@[b] == acts_before[b]);
                        assert(actions@[b + 1] == acts_before[b + 1]);
                        assert(actions@[b + 2] == acts_before[b + 2]);
                        assert(actions@[b + 3] == acts_before[b + 3]);
                        assert(actions@[b + 4] == acts_before[b + 4]);
                    }
                }
            }
        }
        j = j + 1;
    }
    if w != wire.len() {
        proof {
            assert(!children_ok(ev, statuses@, wire@, base as int));
        }
        return Err(GetError::Protocol);
    }
    let closing = match nx {
        EndBlobNext::Closing(c) => c,
        EndBlobNext::MoreChildren(_) => {
            proof {
                assert(false);
            }
            return Err(GetError::Protocol);
        },
    };
    let stats = closing.next();
    proof {
        assert(children_ok(ev, statuses@, wire@, base as int)) by {
            assert forall|jj: int|
                0 <= jj < ev.len() && !(#[trigger] statuses@[jj]).final_present implies {
                let wj = base + wire_index(statuses@, jj);
                &&& wire@[wj].header@.len() == 8
                &&& statuses@[jj].kept_prefix().len() + wire@[wj].payload@.len() == le64(
                    wire@[wj].header@,
                )
                &&& hash_of(statuses@[jj].kept_prefix().add(wire@[wj].payload@)) == ev[jj].1
            } by {
                assert(child_slot_ok(ev, statuses@, wire@, base as int, 0, actions@, jj));
            }
        }
    }
    Ok((stats.bytes_read, actions))
}

/// Wire indices only grow along the entries.
pub proof fn lemma_wire_index_mono(sts: Seq<BlobStatus>, a: int, b: int)
    requires
        a <= b,
    ensures
        wire_index(sts, a) <= wire_index(sts, b),
    decreases b - a,
{
    if a < b {
        lemma_wire_index_mono(sts, a, b - 1);
    }
}


/// Reassembling a kept prefix with the delivered tail gives back the whole
/// blob: resuming from any offset ends with the same final bytes as a
/// fresh download.
pub proof fn lemma_partial_resume(full: Seq<u8>, k: int)
    requires
        0 <= k <= full.len(),
    ensures
        full.take(k).add(full.skip(k)) == full,
{
    assert(full.take(k).add(full.skip(k)) =~= full);
}

impl GetInteractive {
    /// Fetch a collection and place every missing child under the output
    /// directory, in collection order.
    ///
    /// With no cached collection blob the first wire record must carry the
    /// collection itself — within the size cap, verified against the root
    /// hash — which is parsed and persisted for future resumes; every child
    /// is then fetched in full. With a cached blob only the children whose
    /// final files are missing are fetched, each resuming past its kept
    /// partial prefix. Succeeds exactly on `multi_success`: a valid
    /// collection and a wire that serves precisely the missing children.
    #[verifier::rlimit(100)]
    #[verifier::spinoff_prover]
    pub fn get_to_dir_multi(&self, snap: &DirSnapshot, wire: &Vec<WireBlob>) -> (r: Result<
        (Stats, Vec<Action>, Collection),
        GetError,
    >)
        requires
            self.wf(),
            sum_first(wire@, wire@.len() as int) <= u64::MAX,
            forall|j: int|
                0 <= j < snap.children@.len() ==> (#[trigger] snap.children@[j]).resume_offset()
                    <= u64::MAX,
        ensures
            (r is Ok <==> multi_success(self.spec_hash(), *snap, wire@)),
            match r {
                Ok((stats, actions, c)) => multi_ok_side(
                    self.spec_hash(),
                    *snap,
                    wire@,
                    stats,
                    actions,
                    c,
                ),
                Err(_) => true,
            },
    {
        match &snap.collection_bytes {
            Some(bytes) => {
                let fb = Collection::from_bytes(bytes);
                proof {
                    assert forall|es: Seq<(Seq<u8>, Seq<u8>)>|
                        (#[trigger] crate::collection::entries_ok(es)
                            && crate::collection::enc_collection(es) =~= bytes@) implies (
                    fb matches Ok(cc) && cc@ =~= es) by {}
                }
                let c = match fb {
                    Ok(c) => c,
                    Err(_) => {
                        proof {
                            assert(!multi_success(self.spec_hash(), *snap, wire@)) by {
                                if multi_success(self.spec_hash(), *snap, wire@) {
                                    let es = choose|es: Seq<(Seq<u8>, Seq<u8>)>|
                                        #[trigger] crate::collection::entries_ok(es)
                                            && crate::collection::enc_collection(es) =~= bytes@
                                            && es.len() == snap.children@.len() && children_ok(
                                            es,
                                            snap.children@,
                                            wire@,
                                            0,
                                        );
                                    assert(crate::collection::entries_ok(es));
                                    assert(false);
                                }
                            }
                        }
                        return Err(GetError::Validation);
                    },
                };
                if snap.children.len() != c.entries().len() {
                    proof {
                        assert(!multi_success(self.spec_hash(), *snap, wire@)) by {
                            if multi_success(self.spec_hash(), *snap, wire@) {
                                let es = choose|es: Seq<(Seq<u8>, Seq<u8>)>|
                                    #[trigger] crate::collection::entries_ok(es)
                                        && crate::collection::enc_collection(es) =~= bytes@
                                        && es.len() == snap.children@.len() && children_ok(
                                        es,
                                        snap.children@,
                                        wire@,
                                        0,
                                    );
                                assert(c@ =~= es);
                                assert(false);
                            }
                        }
                    }
                    return Err(GetError::Validation);
                }
                match run_children(c.entries(), &snap.children, wire, 0) {
                    Err(e) => {
                        proof {
                            assert(!multi_success(self.spec_hash(), *snap, wire@)) by {
                                if multi_success(self.spec_hash(), *snap, wire@) {
                                    let es = choose|es: Seq<(Seq<u8>, Seq<u8>)>|
                                        #[trigger] crate::collection::entries_ok(es)
                                            && crate::collection::enc_collection(es) =~= bytes@
                                            && es.len() == snap.children@.len() && children_ok(
                                            es,
                                            snap.children@,
                                            wire@,
                                            0,
                                        );
                                    assert(c@ =~= es);
                                    assert(children_ok(c@, snap.children@, wire@, 0));
                                    assert(false);
                                }
                            }
                        }
                        return Err(e);
                    },
                    Ok((machine_bytes, mut actions)) => {
                        let ghost pre_actions = actions@;
                        actions.push(Action::RemoveTempDir);
                        proof {
                            assert(actions@.drop_last() =~= pre_actions);
                            assert(sum_first(wire@, 0) == 0);
                            assert(children_ok(c@, snap.children@, wire@, 0));
                            assert(multi_success(self.spec_hash(), *snap, wire@)) by {
                                assert(crate::collection::entries_ok(c@)
                                    && crate::collection::enc_collection(c@) =~= bytes@ && c@.len()
                                    == snap.children@.len() && children_ok(
                                    c@,
                                    snap.children@,
                                    wire@,
                                    0,
                                ));
                            }
                        }
                        Ok((Stats { bytes_read: machine_bytes }, actions, c))
                    },
                }
            },
            None => {
                if wire.len() == 0 {
                    return Err(GetError::Transport);
                }
                if wire[0].header.len() != 8 {
                    return Err(GetError::Transport);
                }
                let mut plan0: Vec<RangeSet> = Vec::new();
                plan0.push(RangeSet::suffix(0));
                let connected = AtConnected::new(plan0);
                let root = match connected.next() {
                    ConnectedNext::StartRoot(sr) => sr,
                    ConnectedNext::Closing(_) => {
                        proof {
                            assert(false);
                        }
                        return Err(GetError::Protocol);
                    },
                };
                let header = root.next();
                let (content_state, size) = header.next(&wire[0].header);
                if size > MAX_COLLECTION_SIZE {
                    return Err(GetError::Protocol);
                }
                let expected = self.hash();
                let prefix: Vec<u8> = Vec::new();
                proof {
                    lemma_sum_first_mono(wire@, 1, wire@.len() as int);
                    assert(sum_first(wire@, 0) == 0);
                    assert(sum_first(wire@, 1) == wire@[0].payload@.len());
                }
                let (_end, content) = match content_state.write_all(
                    &expected,
                    &prefix,
                    &wire[0].payload,
                ) {
                    Ok(p) => p,
                    Err(e) => {
                        return Err(e);
                    },
                };
                let fb = Collection::from_bytes(&content);
                proof {
                    assert(content@ == wire@[0].payload@);
                    assert forall|es: Seq<(Seq<u8>, Seq<u8>)>|
                        (#[trigger] crate::collection::entries_ok(es)
                            && crate::collection::enc_collection(es) =~= wire@[0].payload@)
                        implies (fb matches Ok(cc) && cc@ =~= es) by {
                        assert(crate::collection::enc_collection(es) =~= content@);
                    }
                }
                let c = match fb {
                    Ok(c) => c,
                    Err(_) => {
                        proof {
                            assert(!multi_success(self.spec_hash(), *snap, wire@)) by {
                                if multi_success(self.spec_hash(), *snap, wire@) {
                                    let es = choose|es: Seq<(Seq<u8>, Seq<u8>)>|
                                        #[trigger] crate::collection::entries_ok(es)
                                            && crate::collection::enc_collection(es) =~= wire@[
                                            0].payload@ && children_ok(
                                            es,
                                            fresh_statuses(es.len() as int),
                                            wire@,
                                            1,
                                        );
                                    assert(crate::collection::entries_ok(es));
                                    assert(false);
                                }
                            }
                        }
                        return Err(GetError::Validation);
                    },
                };
                let m = c.entries().len();
                let mut statuses: Vec<BlobStatus> = Vec::new();
                let mut k: usize = 0;
                while k < m
                    invariant
                        k <= m,
                        statuses@.len() == k,
                        statuses@ =~= fresh_statuses(m as int).take(k as int),
                    decreases m - k,
                {
                    statuses.push(
                        BlobStatus { final_present: false, partial: None, outboard_ok: false },
                    );
                    proof {
                        assert(statuses@ =~= fresh_statuses(m as int).take(k + 1 as int));
                    }
                    k = k + 1;
                }
                proof {
                    assert(statuses@ =~= fresh_statuses(m as int));
                    assert forall|j: int|
                        0 <= j < statuses@.len() implies (#[trigger] statuses@[
                        j]).resume_offset() <= u64::MAX by {}
                }
                let hex_root = to_hex(&expected);
                match run_children(c.entries(), &statuses, wire, 1) {
                    Err(e) => {
                        proof {
                            assert(!multi_success(self.spec_hash(), *snap, wire@)) by {
                                if multi_success(self.spec_hash(), *snap, wire@) {
                                    let es = choose|es: Seq<(Seq<u8>, Seq<u8>)>|
                                        #[trigger] crate::collection::entries_ok(es)
                                            && crate::collection::enc_collection(es) =~= wire@[
                                            0].payload@ && children_ok(
                                            es,
                                            fresh_statuses(es.len() as int),
                                            wire@,
                                            1,
                                        );
                                    assert(c@ =~= es);
                                    assert(fresh_statuses(es.len() as int) =~= statuses@);
                                    assert(children_ok(c@, statuses@, wire@, 1));
                                    assert(false);
                                }
                            }
                        }
                        return Err(e);
                    },
                    Ok((machine_bytes, mut ca)) => {
                        let mut actions: Vec<Action> = Vec::new();
                        actions.push(Action::CreateTempDir);
                        actions.push(Action::CreateOutDir);
                        actions.push(
                            Action::WriteTempCollection {
                                hex: bytes_dup(&hex_root),
                                bytes: bytes_dup(&wire[0].payload),
                            },
                        );
                        let ghost prelude = actions@;
                        let ghost cav = ca@;
                        actions.append(&mut ca);
                        let ghost combined = actions@;
                        actions.push(Action::RemoveTempDir);
                        let root_len = wire[0].payload.len();
                        proof {
                            assert(combined == prelude.add(cav));
                            assert(actions@.drop_last() =~= combined);
                            lemma_child_actions_shift(
                                c@,
                                statuses@,
                                wire@,
                                1,
                                prelude,
                                cav,
                                m as int,
                            );
                            assert(actions@[0] == prelude[0]);
                            assert(actions@[1] == prelude[1]);
                            assert(actions@[2] == prelude[2]);
                            assert(children_ok(c@, statuses@, wire@, 1));
                            assert(wire@.len() == 1 + wire_index(statuses@, m as int));
                            assert(root_len + machine_bytes == sum_first(
                                wire@,
                                wire@.len() as int,
                            ));
                            lemma_sum_first_mono(wire@, 0, 1);
                            assert(root_len + machine_bytes <= u64::MAX);
                            assert(multi_success(self.spec_hash(), *snap, wire@)) by {
                                assert(fresh_statuses(c@.len() as int) =~= statuses@);
                                assert(crate::collection::entries_ok(c@)
                                    && crate::collection::enc_collection(c@) =~= wire@[0].payload@
                                    && children_ok(
                                    c@,
                                    fresh_statuses(c@.len() as int),
                                    wire@,
                                    1,
                                ));
                            }
                        }
                        Ok(
                            (
                                Stats { bytes_read: root_len as u64 + machine_bytes },
                                actions,
                                c,
                            ),
                        )
                    },
                }
            },
        }
    }

    /// Stream the root blob to standard output, verified against the root
    /// hash. Nothing touches the filesystem.
    pub fn get_to_stdout_single(&self, wire: &Vec<WireBlob>) -> (r: Result<
        (Stats, Vec<Action>),
        GetError,
    >)
        requires
            self.wf(),
            sum_first(wire@, wire@.len() as int) <= u64::MAX,
        ensures
            stdout_single_outcome(self.spec_hash(), wire@, r),
    {
        if wire.len() == 0 {
            return Err(GetError::Transport);
        }
        if wire[0].header.len() != 8 {
            return Err(GetError::Transport);
        }
        let mut plan: Vec<RangeSet> = Vec::new();
        plan.push(RangeSet::suffix(0));
        let connected = AtConnected::new(plan);
        let root = match connected.next() {
            ConnectedNext::StartRoot(sr) => sr,
            ConnectedNext::Closing(_) => {
                proof {
                    assert(false);
                }
                return Err(GetError::Protocol);
            },
        };
        let header = root.next();
        let (content_state, _size) = header.next(&wire[0].header);
        let expected = self.hash();
        let prefix: Vec<u8> = Vec::new();
        proof {
            lemma_sum_first_mono(wire@, 1, wire@.len() as int);
            assert(sum_first(wire@, 0) == 0);
            assert(sum_first(wire@, 1) == wire@[0].payload@.len());
        }
        let (end, content) = match content_state.write_all(&expected, &prefix, &wire[0].payload) {
            Ok(p) => p,
            Err(e) => {
                return Err(e);
            },
        };
        if wire.len() > 1 {
            // the request named one blob: anything further violates the
            // wire grammar
            return Err(GetError::Protocol);
        }
        let closing = match end.next() {
            EndBlobNext::Closing(c) => c,
            EndBlobNext::MoreChildren(_) => {
                proof {
                    assert(false);
                }
                return Err(GetError::Protocol);
            },
        };
        let stats = closing.next();
        let mut actions: Vec<Action> = Vec::new();
        actions.push(Action::StdoutWrite { bytes: content });
        Ok((stats, actions))
    }

    /// Stream every child of a collection to standard output, concatenated
    /// in collection order; each child is verified against its entry hash
    /// before its bytes are emitted. Nothing touches the filesystem.
    /// Succeeds exactly on `stdout_multi_success`: a valid collection
    /// within the size cap and one full record per child, nothing more.
    #[verifier::rlimit(100)]
    #[verifier::spinoff_prover]
    pub fn get_to_stdout_multi(&self, wire: &Vec<WireBlob>) -> (r: Result<
        (Stats, Vec<Action>, Collection),
        GetError,
    >)
        requires
            self.wf(),
            sum_first(wire@, wire@.len() as int) <= u64::MAX,
        ensures
            (r is Ok <==> stdout_multi_success(self.spec_hash(), wire@)),
            match r {
                Ok((stats, actions, c)) => stdout_multi_ok_side(
                    self.spec_hash(),
                    wire@,
                    stats,
                    actions,
                    c,
                ),
                Err(_) => true,
            },
    {
        if wire.len() == 0 {
            return Err(GetError::Transport);
        }
        if wire[0].header.len() != 8 {
            return Err(GetError::Transport);
        }
        let mut plan0: Vec<RangeSet> = Vec::new();
        plan0.push(RangeSet::suffix(0));
        let connected = AtConnected::new(plan0);
        let root = match connected.next() {
            ConnectedNext::StartRoot(sr) => sr,
            ConnectedNext::Closing(_) => {
                proof {
                    assert(false);
                }
                return Err(GetError::Protocol);
            },
        };
        let header = root.next();
        let (content_state, size) = header.next(&wire[0].header);
        if size > MAX_COLLECTION_SIZE {
            return Err(GetError::Protocol);
        }
        let expected = self.hash();
        let noprefix: Vec<u8> = Vec::new();
        proof {
            lemma_sum_first_mono(wire@, 1, wire@.len() as int);
            assert(sum_first(wire@, 0) == 0);
            assert(sum_first(wire@, 1) == wire@[0].payload@.len());
        }
        let (_end, content) = match content_state.write_all(&expected, &noprefix, &wire[0].payload)
            {
            Ok(p) => p,
            Err(e) => {
                proof {
                    assert(noprefix@.add(wire@[0].payload@) =~= wire@[0].payload@);
                }
                return Err(e);
            },
        };
        let fb = Collection::from_bytes(&content);
        proof {
            assert(content@ == wire@[0].payload@);
            assert(noprefix@.add(wire@[0].payload@) =~= wire@[0].payload@);
            assert forall|es: Seq<(Seq<u8>, Seq<u8>)>|
                (#[trigger] crate::collection::entries_ok(es)
                    && crate::collection::enc_collection(es) =~= wire@[0].payload@) implies (
            fb matches Ok(cc) && cc@ =~= es) by {
                assert(crate::collection::enc_collection(es) =~= content@);
            }
        }
        let c = match fb {
            Ok(c) => c,
            Err(_) => {
                proof {
                    assert(!stdout_multi_success(self.spec_hash(), wire@)) by {
                        if stdout_multi_success(self.spec_hash(), wire@) {
                            let es = choose|es: Seq<(Seq<u8>, Seq<u8>)>|
                                #[trigger] crate::collection::entries_ok(es)
                                    && crate::collection::enc_collection(es) =~= wire@[0].payload@
                                    && stdout_children_ok(es, wire@, 1);
                            assert(crate::collection::entries_ok(es));
                            assert(false);
                        }
                    }
                }
                return Err(GetError::Validation);
            },
        };
        match run_children_stdout(c.entries(), wire, 1) {
            Err(e) => {
                proof {
                    assert(!stdout_multi_success(self.spec_hash(), wire@)) by {
                        if stdout_multi_success(self.spec_hash(), wire@) {
                            let es = choose|es: Seq<(Seq<u8>, Seq<u8>)>|
                                #[trigger] crate::collection::entries_ok(es)
                                    && crate::collection::enc_collection(es) =~= wire@[0].payload@
                                    && stdout_children_ok(es, wire@, 1);
                            assert(c@ =~= es);
                            assert(stdout_children_ok(c@, wire@, 1));
                            assert(false);
                        }
                    }
                }
                Err(e)
            },
            Ok((child_bytes, actions)) => {
                let root_len = wire[0].payload.len();
                proof {
                    assert(stdout_children_ok(c@, wire@, 1));
                    assert(wire@.len() == 1 + c@.len());
                    assert(root_len + child_bytes == sum_first(wire@, wire@.len() as int));
                    lemma_sum_first_mono(wire@, 0, 1);
                    assert(root_len + child_bytes <= u64::MAX);
                    assert(stdout_multi_success(self.spec_hash(), wire@)) by {
                        assert(crate::collection::entries_ok(c@)
                            && crate::collection::enc_collection(c@) =~= wire@[0].payload@
                            && stdout_children_ok(c@, wire@, 1));
                    }
                }
                Ok((Stats { bytes_read: root_len as u64 + child_bytes }, actions, c))
            },
        }
    }

    /// Stream to standard output: the root blob alone in single mode, else
    /// every child of the collection in order. No resume is possible and
    /// nothing touches the filesystem; the per-mode contract is forwarded
    /// whole, with the decoded collection when there is one.
    pub fn get_to_stdout(&self, wire: &Vec<WireBlob>) -> (r: Result<
        (Stats, Vec<Action>, Option<Collection>),
        GetError,
    >)
        requires
            self.wf(),
            sum_first(wire@, wire@.len() as int) <= u64::MAX,
        ensures
            self.spec_single() ==> stdout_single_outcome(
                self.spec_hash(),
                wire@,
                strip_collection(r),
            ),
            !self.spec_single() ==> stdout_multi_forwarded(self.spec_hash(), wire@, r),
    {
        if self.single() {
            match self.get_to_stdout_single(wire) {
                Ok((stats, actions)) => Ok((stats, actions, None)),
                Err(e) => Err(e),
            }
        } else {
            match self.get_to_stdout_multi(wire) {
                Ok((stats, actions, c)) => Ok((stats, actions, Some(c))),
                Err(e) => Err(e),
            }
        }
    }

    /// Fetch into the output directory: a single file when the request is
    /// for one blob, else the whole collection. The per-mode contract is
    /// forwarded whole, with the decoded collection when there is one.
    pub fn get_to_dir(&self, status: &BlobStatus, snap: &DirSnapshot, wire: &Vec<WireBlob>) -> (r:
        Result<(Stats, Vec<Action>, Option<Collection>), GetError>)
        requires
            self.wf(),
            status.resume_offset() <= u64::MAX,
            sum_first(wire@, wire@.len() as int) <= u64::MAX,
            forall|j: int|
                0 <= j < snap.children@.len() ==> (#[trigger] snap.children@[j]).resume_offset()
                    <= u64::MAX,
        ensures
            self.spec_single() ==> single_file_outcome(
                self.spec_hash(),
                *status,
                wire@,
                strip_collection(r),
            ),
            !self.spec_single() ==> multi_forwarded(self.spec_hash(), *snap, wire@, r),
    {
        if self.single() {
            match self.get_to_file_single(status, wire) {
                Ok((stats, actions)) => Ok((stats, actions, None)),
                Err(e) => Err(e),
            }
        } else {
            match self.get_to_dir_multi(snap, wire) {
                Ok((stats, actions, c)) => Ok((stats, actions, Some(c))),
                Err(e) => Err(e),
            }
        }
    }

    /// The entry point: fetch into the output directory when one is given,
    /// else stream to standard output. The chosen mode's contract is
    /// forwarded whole.
    pub fn get_interactive(&self, local: Option<&LocalState>, wire: &Vec<WireBlob>) -> (r: Result<
        (Stats, Vec<Action>, Option<Collection>),
        GetError,
    >)
        requires
            self.wf(),
            sum_first(wire@, wire@.len() as int) <= u64::MAX,
            (local matches Some(l) ==> (l.status.resume_offset() <= u64::MAX && forall|j: int|
                0 <= j < l.snap.children@.len() ==> (#[trigger] l.snap.children@[
                    j]).resume_offset() <= u64::MAX)),
        ensures
            (local matches Some(l) ==> ((self.spec_single() ==> single_file_outcome(
                self.spec_hash(),
                l.status,
                wire@,
                strip_collection(r),
            )) && (!self.spec_single() ==> multi_forwarded(
                self.spec_hash(),
                l.snap,
                wire@,
                r,
            )))),
            local is None ==> ((self.spec_single() ==> stdout_single_outcome(
                self.spec_hash(),
                wire@,
                strip_collection(r),
            )) && (!self.spec_single() ==> stdout_multi_forwarded(
                self.spec_hash(),
                wire@,
                r,
            ))),
    {
        match local {
            Some(l) => self.get_to_dir(&l.status, &l.snap, wire),
            None => self.get_to_stdout(wire),
        }
    }
}

/// What the caller found on disk before a transfer with an output
/// directory.
#[derive(Debug)]
pub struct LocalState {
    /// The root blob's own status, for single-file mode.
    pub status: BlobStatus,
    /// The collection snapshot, for collection mode.
    pub snap: DirSnapshot,
}

} // verus!
