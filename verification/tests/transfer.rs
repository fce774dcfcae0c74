use blob_fetch::collection::Collection;
use blob_fetch::collection::DecodeError;
use blob_fetch::driver::Action;
use blob_fetch::driver::DirSnapshot;
use blob_fetch::driver::GetInteractive;
use blob_fetch::machine::GetError;
use blob_fetch::machine::WireBlob;
use blob_fetch::planner::BlobStatus;

fn h(data: &[u8]) -> Vec<u8> {
    iroh_bytes::Hash::new(data).as_bytes().to_vec()
}

fn hex(data: &[u8]) -> Vec<u8> {
    let mut out = Vec::new();
    for b in data {
        let hi = b / 16;
        let lo = b % 16;
        out.push(if hi < 10 { 48 + hi } else { 87 + hi });
        out.push(if lo < 10 { 48 + lo } else { 87 + lo });
    }
    out
}

fn wire(payload: &[u8], total_size: u64) -> WireBlob {
    WireBlob { header: total_size.to_le_bytes().to_vec(), payload: payload.to_vec() }
}

fn collection_bytes(entries: &[(&[u8], Vec<u8>)]) -> Vec<u8> {
    let mut out = Vec::new();
    assert!(entries.len() < 128);
    out.push(entries.len() as u8);
    for (name, hash) in entries {
        assert!(name.len() < 128);
        out.push(name.len() as u8);
        out.extend_from_slice(name);
        out.extend_from_slice(hash);
    }
    out
}

fn fresh() -> BlobStatus {
    BlobStatus { final_present: false, partial: None, outboard_ok: false }
}

fn renames(actions: &[Action]) -> Vec<Vec<u8>> {
    let mut out = Vec::new();
    for a in actions {
        if let Action::Rename { name, .. } = a {
            out.push(name.clone());
        }
    }
    out
}

#[test]
fn single_blob_happy_path() {
    let data = b"hello";
    let hash = h(data);
    let req = GetInteractive::Hash { hash: hash.clone(), single: true };
    let w = vec![wire(data, 5)];
    let (stats, actions) = req.get_to_file_single(&fresh(), &w).unwrap();
    assert_eq!(stats.bytes_read, 5);
    assert_eq!(actions.len(), 7);
    let expect_hex = iroh_bytes::Hash::new(data).to_hex().into_bytes();
    assert_eq!(hex(&hash), expect_hex);
    match &actions[4] {
        Action::Rename { name, .. } => assert_eq!(name, &expect_hex),
        other => panic!("expected rename, got {:?}", kind(other)),
    }
    match &actions[2] {
        Action::WriteTemp { offset, bytes, .. } => {
            assert_eq!(*offset, 0);
            assert_eq!(bytes, data);
        },
        other => panic!("expected write, got {:?}", kind(other)),
    }
}

fn kind(a: &Action) -> &'static str {
    match a {
        Action::CreateTempDir => "CreateTempDir",
        Action::CreateOutDir => "CreateOutDir",
        Action::CreateParentDirs { .. } => "CreateParentDirs",
        Action::WriteTemp { .. } => "WriteTemp",
        Action::SyncTemp { .. } => "SyncTemp",
        Action::Rename { .. } => "Rename",
        Action::RemoveOutboard { .. } => "RemoveOutboard",
        Action::WriteTempCollection { .. } => "WriteTempCollection",
        Action::StdoutWrite { .. } => "StdoutWrite",
        Action::RemoveTempDir => "RemoveTempDir",
    }
}

#[test]
fn single_resume_idempotent() {
    let data = b"hello";
    let req = GetInteractive::Hash { hash: h(data), single: true };
    let done = BlobStatus { final_present: true, partial: None, outboard_ok: false };
    let (stats, actions) = req.get_to_file_single(&done, &vec![]).unwrap();
    assert_eq!(stats.bytes_read, 0);
    assert!(actions.is_empty());
}

#[test]
fn single_transport_error_on_empty_wire() {
    let data = b"hello";
    let req = GetInteractive::Hash { hash: h(data), single: true };
    assert_eq!(req.get_to_file_single(&fresh(), &vec![]).unwrap_err(), GetError::Transport);
}

#[test]
fn single_protocol_error_on_bad_size() {
    let data = b"hello";
    let req = GetInteractive::Hash { hash: h(data), single: true };
    let w = vec![wire(data, 6)];
    assert_eq!(req.get_to_file_single(&fresh(), &w).unwrap_err(), GetError::Protocol);
}

#[test]
fn single_verification_error_on_flip() {
    let data = b"hello";
    let req = GetInteractive::Hash { hash: h(data), single: true };
    let w = vec![wire(b"hellp", 5)];
    assert_eq!(req.get_to_file_single(&fresh(), &w).unwrap_err(), GetError::Verification);
}

#[test]
fn collection_of_two_files() {
    let ha = h(b"AAAA");
    let hb = h(b"BBBBBB");
    let col = collection_bytes(&[(b"a.txt", ha.clone()), (b"dir/b.txt", hb.clone())]);
    let root = h(&col);
    let req = GetInteractive::Hash { hash: root, single: false };
    let snap = DirSnapshot { collection_bytes: None, children: vec![] };
    let w = vec![wire(&col, col.len() as u64), wire(b"AAAA", 4), wire(b"BBBBBB", 6)];
    let (stats, actions, c) = req.get_to_dir_multi(&snap, &w).unwrap();
    assert_eq!(stats.bytes_read, col.len() as u64 + 4 + 6);
    assert_eq!(c.total_entries(), 2);
    let rn = renames(&actions);
    assert_eq!(rn, vec![b"a.txt".to_vec(), b"dir/b.txt".to_vec()]);
    assert!(matches!(actions.last().unwrap(), Action::RemoveTempDir));
}

#[test]
fn resume_after_truncated_first_file() {
    let ha = h(b"AAAA");
    let hb = h(b"BBBBBB");
    let col = collection_bytes(&[(b"a.txt", ha.clone()), (b"dir/b.txt", hb.clone())]);
    let root = h(&col);
    let req = GetInteractive::Hash { hash: root, single: false };
    let snap = DirSnapshot {
        collection_bytes: Some(col.clone()),
        children: vec![
            BlobStatus { final_present: false, partial: Some(b"AA".to_vec()), outboard_ok: true },
            fresh(),
        ],
    };
    // only the tail of the first file and all of the second travel
    let w = vec![wire(b"AA", 4), wire(b"BBBBBB", 6)];
    let (stats, actions, _c) = req.get_to_dir_multi(&snap, &w).unwrap();
    assert_eq!(stats.bytes_read, 2 + 6);
    match &actions[1] {
        Action::WriteTemp { offset, bytes, .. } => {
            assert_eq!(*offset, 2);
            assert_eq!(bytes, b"AA");
        },
        other => panic!("expected write, got {:?}", kind(other)),
    }
}

#[test]
fn collection_resume_idempotent() {
    let ha = h(b"AAAA");
    let col = collection_bytes(&[(b"a.txt", ha.clone())]);
    let root = h(&col);
    let req = GetInteractive::Hash { hash: root, single: false };
    let snap = DirSnapshot {
        collection_bytes: Some(col.clone()),
        children: vec![BlobStatus { final_present: true, partial: None, outboard_ok: false }],
    };
    let (stats, actions, _c) = req.get_to_dir_multi(&snap, &vec![]).unwrap();
    assert_eq!(stats.bytes_read, 0);
    assert_eq!(actions.len(), 1);
    assert!(matches!(actions[0], Action::RemoveTempDir));
}

#[test]
fn corruption_rejected() {
    let ha = h(b"AAAA");
    let col = collection_bytes(&[(b"a.txt", ha.clone())]);
    let root = h(&col);
    let req = GetInteractive::Hash { hash: root, single: false };
    let snap = DirSnapshot { collection_bytes: None, children: vec![] };
    // one byte of the data stream flipped
    let w = vec![wire(&col, col.len() as u64), wire(b"AABA", 4)];
    assert_eq!(req.get_to_dir_multi(&snap, &w).unwrap_err(), GetError::Verification);
}

#[test]
fn path_traversal_rejected() {
    let hx = h(b"X");
    let col = collection_bytes(&[(b"../evil", hx.clone())]);
    assert_eq!(Collection::from_bytes(&col).unwrap_err(), DecodeError::BadName);
    let root = h(&col);
    let req = GetInteractive::Hash { hash: root, single: false };
    let snap = DirSnapshot { collection_bytes: None, children: vec![] };
    let w = vec![wire(&col, col.len() as u64), wire(b"X", 1)];
    assert_eq!(req.get_to_dir_multi(&snap, &w).unwrap_err(), GetError::Validation);
}

#[test]
fn collection_rejects_bad_entries() {
    let hx = h(b"X");
    let zero = vec![0u8; 32];
    assert_eq!(
        Collection::from_bytes(&collection_bytes(&[(b"a", zero)])).unwrap_err(),
        DecodeError::BadHash
    );
    assert_eq!(
        Collection::from_bytes(&collection_bytes(&[(b"a", hx.clone()), (b"a", hx.clone())]))
            .unwrap_err(),
        DecodeError::DuplicateName
    );
    assert_eq!(
        Collection::from_bytes(&collection_bytes(&[(b"a\\b", hx.clone())])).unwrap_err(),
        DecodeError::BadName
    );
    assert_eq!(
        Collection::from_bytes(&collection_bytes(&[(b"/abs", hx.clone())])).unwrap_err(),
        DecodeError::BadName
    );
    let mut trailing = collection_bytes(&[(b"a", hx.clone())]);
    trailing.push(7);
    assert_eq!(Collection::from_bytes(&trailing).unwrap_err(), DecodeError::Malformed);
    let c = Collection::from_bytes(&collection_bytes(&[(b"ok/name", hx)])).unwrap();
    assert_eq!(c.total_entries(), 1);
    assert_eq!(c.encode(), collection_bytes(&[(b"ok/name", h(b"X"))]));
}

#[test]
fn stdout_multi_concatenates_in_order() {
    let h1 = h(b"X");
    let h2 = h(b"Y");
    let col = collection_bytes(&[(b"1", h1), (b"2", h2)]);
    let root = h(&col);
    let req = GetInteractive::Hash { hash: root, single: false };
    let w = vec![wire(&col, col.len() as u64), wire(b"X", 1), wire(b"Y", 1)];
    let (stats, actions, _c) = req.get_to_stdout_multi(&w).unwrap();
    assert_eq!(stats.bytes_read, col.len() as u64 + 2);
    let mut out = Vec::new();
    for a in &actions {
        match a {
            Action::StdoutWrite { bytes } => out.extend_from_slice(bytes),
            other => panic!("expected stdout write, got {:?}", kind(other)),
        }
    }
    assert_eq!(out, b"XY");
}

#[test]
fn stdout_single_writes_one_blob() {
    let data = b"hello";
    let req = GetInteractive::Hash { hash: h(data), single: true };
    let w = vec![wire(data, 5)];
    let (stats, actions, col) = req.get_to_stdout(&w).unwrap();
    assert_eq!(stats.bytes_read, 5);
    assert_eq!(actions.len(), 1);
    assert!(col.is_none());
    match &actions[0] {
        Action::StdoutWrite { bytes } => assert_eq!(bytes, data),
        other => panic!("expected stdout write, got {:?}", kind(other)),
    }
}

#[test]
fn surplus_records_rejected() {
    let data = b"hello";
    let req = GetInteractive::Hash { hash: h(data), single: true };
    // a valid first record followed by an unrequested extra one
    let w = vec![wire(data, 5), wire(b"extra", 5)];
    assert_eq!(req.get_to_file_single(&fresh(), &w).unwrap_err(), GetError::Protocol);
    assert_eq!(req.get_to_stdout_single(&w).unwrap_err(), GetError::Protocol);
}

#[test]
fn collection_surplus_record_rejected() {
    let ha = h(b"AAAA");
    let col = collection_bytes(&[(b"a.txt", ha.clone())]);
    let root = h(&col);
    let req = GetInteractive::Hash { hash: root, single: false };
    let snap = DirSnapshot { collection_bytes: None, children: vec![] };
    let w = vec![wire(&col, col.len() as u64), wire(b"AAAA", 4), wire(b"junk", 4)];
    assert_eq!(req.get_to_dir_multi(&snap, &w).unwrap_err(), GetError::Protocol);
}

#[test]
fn oversized_collection_rejected() {
    let data = b"hello";
    let req = GetInteractive::Hash { hash: h(data), single: false };
    let snap = DirSnapshot { collection_bytes: None, children: vec![] };
    // the header announces a collection past the 64 MiB cap
    let w = vec![wire(b"", 64 * 1024 * 1024 + 1)];
    assert_eq!(req.get_to_dir_multi(&snap, &w).unwrap_err(), GetError::Protocol);
    assert_eq!(req.get_to_stdout_multi(&w).unwrap_err(), GetError::Protocol);
}

#[test]
fn ticket_requests_are_collections() {
    let data = b"hello";
    let t = blob_fetch::driver::Ticket { hash: h(data) };
    let req = GetInteractive::Ticket { ticket: t, keylog: false };
    assert!(!req.single());
    assert_eq!(req.hash(), h(data));
}
