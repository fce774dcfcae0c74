use blob_fetch::ranges::RangeSet;
use blob_fetch::planner::get_missing_range;
use blob_fetch::planner::get_missing_ranges;
use blob_fetch::planner::BlobStatus;
use blob_fetch::disco::DiscoPingPurpose;
use blob_fetch::wire::RangeSpecSeq;
use blob_fetch::wire::push_varint;
use blob_fetch::wire::read_varint;

#[test]
fn varint_round_trip() {
    for v in [0u64, 1, 127, 128, 300, 16384, u64::MAX] {
        let mut buf: Vec<u8> = Vec::new();
        push_varint(&mut buf, v);
        let (got, used) = read_varint(&buf, 0).unwrap();
        assert_eq!(got, v);
        assert_eq!(used, buf.len());
    }
}

#[test]
fn range_set_algebra() {
    let a = RangeSet::interval(10, 33);
    let b = RangeSet::interval(20, 40);
    let u = a.union(&b);
    assert!(u.contains(10) && u.contains(39) && !u.contains(40) && !u.contains(9));
    let i = a.intersect(&b);
    assert!(i.contains(20) && i.contains(32) && !i.contains(33) && !i.contains(19));
    // the canonical form makes the algebra hold on values, not just members
    assert!(a.union(&b).same_as(&b.union(&a)));
    assert!(a.intersect(&b).same_as(&b.intersect(&a)));
    assert!(a.complement().complement().same_as(&a));
    assert!(a.union(&a.complement()).same_as(&RangeSet::all()));
    assert!(a.intersect(&a.complement()).is_empty());
    assert!(RangeSet::empty().is_empty());
    assert!(RangeSet::all().is_all());
    assert!(!RangeSet::suffix(5).is_all());
    assert!(RangeSet::suffix(0).is_all());
}

#[test]
fn range_set_union_of_many_intervals() {
    // a small sweep over interval pairs in [0, 100): membership matches the
    // boolean of the operands everywhere
    let bounds = [0u64, 3, 7, 10, 25, 60, 99];
    for &s1 in &bounds {
        for &e1 in &bounds {
            for &s2 in &bounds {
                for &e2 in &bounds {
                    let a = RangeSet::interval(s1, e1);
                    let b = RangeSet::interval(s2, e2);
                    let u = a.union(&b);
                    let i = a.intersect(&b);
                    for x in 0u64..100 {
                        assert_eq!(u.contains(x), a.contains(x) || b.contains(x));
                        assert_eq!(i.contains(x), a.contains(x) && b.contains(x));
                    }
                }
            }
        }
    }
}

#[test]
fn spec_seq_tail_compression() {
    let children = vec![RangeSet::all(), RangeSet::all(), RangeSet::all()];
    let seq = RangeSpecSeq::new(&children);
    let enc = seq.encode();
    assert!(enc.len() <= 3, "encoded in {} bytes", enc.len());
    let dec = RangeSpecSeq::decode(&enc).unwrap();
    // the repeating tail yields the full range for every blob index
    for n in [0u64, 1, 2, 3, 1000] {
        assert!(dec.range_for(n).is_all());
    }
}

#[test]
fn spec_seq_round_trip_and_lookup() {
    let children = vec![RangeSet::empty(), RangeSet::suffix(2), RangeSet::empty()];
    let seq = RangeSpecSeq::new(&children);
    assert!(seq.range_for(0).is_empty());
    assert!(seq.range_for(1).contains(2) && !seq.range_for(1).contains(1));
    assert!(seq.range_for(2).is_empty());
    assert!(seq.range_for(3).is_empty());
    let enc = seq.encode();
    let dec = RangeSpecSeq::decode(&enc).unwrap();
    assert_eq!(dec.encode(), enc);
    assert!(dec.range_for(1).contains(2) && !dec.range_for(1).contains(1));
    // a single full range does not bleed into later blobs
    let single = RangeSpecSeq::new(&vec![RangeSet::all()]);
    assert!(single.range_for(0).is_all());
    assert!(single.range_for(1).is_empty());
}

#[test]
fn planner_ranges() {
    let done = BlobStatus { final_present: true, partial: None, outboard_ok: false };
    assert!(get_missing_range(&done).is_empty());
    let part = BlobStatus { final_present: false, partial: Some(b"AB".to_vec()), outboard_ok: true };
    let r = get_missing_range(&part);
    assert!(r.contains(2) && !r.contains(1));
    let stale = BlobStatus {
        final_present: false,
        partial: Some(b"AB".to_vec()),
        outboard_ok: false,
    };
    assert!(get_missing_range(&stale).contains(0));
    let plan = get_missing_ranges(&vec![done, part]);
    assert_eq!(plan.len(), 4);
    assert!(plan[0].is_empty());
    assert!(plan[1].is_empty());
    assert!(plan[2].contains(2) && !plan[2].contains(1));
    assert!(plan[3].is_empty());
}

#[test]
fn disco_ping_purposes_are_distinct() {
    assert_ne!(DiscoPingPurpose::Discovery, DiscoPingPurpose::Heartbeat);
    assert_ne!(DiscoPingPurpose::Heartbeat, DiscoPingPurpose::Cli);
    let p = DiscoPingPurpose::Discovery;
    assert_eq!(p, p);
}
