//! The resume planner: from a snapshot of local disk state to the byte
//! ranges still missing.
//!
//! The planner is pure: the caller stats the files and hands the findings
//! over as plain values. Identical snapshots give identical plans, which is
//! what makes resuming safe.

use vstd::prelude::*;
use crate::ranges::RangeSet;
use crate::ranges::in_set;

verus! {

/// What the caller found on disk for one blob.
#[derive(Debug)]
pub struct BlobStatus {
    /// The blob's final file already exists under the output directory.
    pub final_present: bool,
    /// Bytes of `<hex>.data.part` in the temp directory, when it exists.
    /// A partial final file is never written, so the final file and the
    /// partial never both matter: the final file wins.
    pub partial: Option<Vec<u8>>,
    /// The outboard continuation next to the partial is usable: its length
    /// matches what the partial's length calls for.
    pub outboard_ok: bool,
}

impl BlobStatus {
    /// The byte offset a resumed download of this blob starts at: the
    /// partial's length when the partial can be trusted, zero otherwise.
    pub open spec fn resume_offset(&self) -> int {
        match self.partial {
            Some(ref p) => {
                if self.outboard_ok {
                    p@.len() as int
                } else {
                    0
                }
            },
            None => 0,
        }
    }

    /// The prefix of the blob already on disk that a resumed download keeps.
    pub open spec fn kept_prefix(&self) -> Seq<u8> {
        match self.partial {
            Some(ref p) => {
                if self.outboard_ok {
                    p@
                } else {
                    Seq::<u8>::empty()
                }
            },
            None => Seq::<u8>::empty(),
        }
    }
}

/// The byte ranges still missing for a single blob: nothing when the final
/// file exists, the suffix past a trusted partial, else everything.
pub fn get_missing_range(status: &BlobStatus) -> (r: RangeSet)
    requires
        status.resume_offset() <= u64::MAX,
    ensures
        r.wf(),
        status.final_present ==> r@ =~= Seq::<u64>::empty(),
        !status.final_present ==> r@ =~= seq![status.resume_offset() as u64],
        forall|x: int|
            in_set(r@, x) == (!status.final_present && status.resume_offset() <= x),
{
    if status.final_present {
        RangeSet::empty()
    } else {
        match &status.partial {
            Some(p) => {
                if status.outboard_ok {
                    RangeSet::suffix(p.len() as u64)
                } else {
                    RangeSet::suffix(0)
                }
            },
            None => RangeSet::suffix(0),
        }
    }
}

/// The per-blob ranges for a whole collection transfer whose collection
/// blob is already cached: nothing for the collection itself (blob zero),
/// then each child's missing range, then an empty terminator so that the
/// repeating tail requests nothing.
pub fn get_missing_ranges(children: &Vec<BlobStatus>) -> (r: Vec<RangeSet>)
    requires
        forall|i: int|
            0 <= i < children@.len() ==> (#[trigger] children@[i]).resume_offset() <= u64::MAX,
    ensures
        r@.len() == children@.len() + 2,
        r@[0].wf(),
        r@[0]@ =~= Seq::<u64>::empty(),
        r@[r@.len() - 1].wf(),
        r@[r@.len() - 1]@ =~= Seq::<u64>::empty(),
        forall|j: int|
            0 <= j < children@.len() ==> (#[trigger] r@[j + 1]).wf() && (children@[j].final_present
                ==> r@[j + 1]@ =~= Seq::<u64>::empty()) && (!children@[j].final_present ==> r@[j
                + 1]@ =~= seq![children@[j].resume_offset() as u64]),
{
    let n = children.len();
    let mut out: Vec<RangeSet> = Vec::new();
    out.push(RangeSet::empty());
    let mut k: usize = 0;
    while k < n
        invariant
            k <= n,
            n == children@.len(),
            forall|i: int|
                0 <= i < children@.len() ==> (#[trigger] children@[i]).resume_offset()
                    <= u64::MAX,
            out@.len() == k + 1,
            out@[0].wf(),
            out@[0]@ =~= Seq::<u64>::empty(),
            forall|j: int|
                0 <= j < k ==> (#[trigger] out@[j + 1]).wf() && (children@[j].final_present
                    ==> out@[j + 1]@ =~= Seq::<u64>::empty()) && (!children@[j].final_present
                    ==> out@[j + 1]@ =~= seq![children@[j].resume_offset() as u64]),
        decreases n - k,
    {
        let r = get_missing_range(&children[k]);
        out.push(r);
        k = k + 1;
    }
    out.push(RangeSet::empty());
    out
}

} // verus!
