use ancestry::identifier::Identifier;
use ancestry::objects::{DecodedObject, ObjectKind, ResolveError, StoreEntry, TraversalError};
use ancestry::resolver::MemoryResolver;
use ancestry::walker::Walker;

fn hex_to_id(hex: &str) -> Identifier {
    Identifier::from_hex(&hex.as_bytes().to_vec()).unwrap()
}

fn byte_id(b: u8) -> Identifier {
    Identifier::from_bytes(vec![b; 20]).unwrap()
}

fn add_commit(db: &mut MemoryResolver, id: &Identifier, parents: &[&Identifier]) {
    let parents: Vec<Identifier> = parents.iter().map(|p| (*p).clone()).collect();
    db.insert_commit(id.clone(), parents);
}

/// The object database of the traversal fixture: a linear history below
/// `9556057a...`, with a branch and a merge above it.
fn db() -> MemoryResolver {
    let mut db = MemoryResolver::new();
    let c_1343 = hex_to_id("134385f6d781b7e97062102c6a483440bfda2a03");
    let c_9902 = hex_to_id("9902e3c3e8f0c569b4ab295ddf473e6de763e1e7");
    let c_17d7 = hex_to_id("17d78c64cef6c33a10a604573fd2c429e477fd63");
    let c_9556 = hex_to_id("9556057aee5abb06912922e9f26c46386a816822");
    let c_9152 = hex_to_id("9152eeee2328073cf23dcf8e90c949170b711659");
    let c_ce2e = hex_to_id("ce2e8ffaa9608a26f7b21afc1db89cadb54fd353");
    let c_efd9 = hex_to_id("efd9a841189668f1bab5b8ebade9cd0a1b139a37");
    let c_01ec = hex_to_id("01ec18a3ebf2855708ad3c9d244306bc1fae3e9b");
    add_commit(&mut db, &c_1343, &[]);
    add_commit(&mut db, &c_9902, &[&c_1343]);
    add_commit(&mut db, &c_17d7, &[&c_9902]);
    add_commit(&mut db, &c_9556, &[&c_17d7]);
    add_commit(&mut db, &c_9152, &[&c_17d7]);
    add_commit(&mut db, &c_ce2e, &[&c_9556, &c_9152]);
    add_commit(&mut db, &c_efd9, &[&c_ce2e]);
    add_commit(&mut db, &c_01ec, &[&c_efd9]);
    db
}

fn check_traversal(tip: &str, expected: &[&str]) {
    let db = db();
    let head = hex_to_id(tip);
    let mut walker = Walker::new(&db, head);
    let oids = walker.run_to_end().unwrap();
    let expected: Vec<Identifier> = std::iter::once(hex_to_id(tip))
        .chain(expected.iter().map(|hex_id| hex_to_id(hex_id)))
        .collect();
    assert_eq!(oids, expected);
}

#[test]
fn linear_history_no_branch() {
    check_traversal(
        "9556057aee5abb06912922e9f26c46386a816822",
        &[
            "17d78c64cef6c33a10a604573fd2c429e477fd63",
            "9902e3c3e8f0c569b4ab295ddf473e6de763e1e7",
            "134385f6d781b7e97062102c6a483440bfda2a03",
        ],
    )
}

#[test]
fn branch_with_merge_visits_each_commit_once() {
    check_traversal(
        "01ec18a3ebf2855708ad3c9d244306bc1fae3e9b",
        &[
            "efd9a841189668f1bab5b8ebade9cd0a1b139a37",
            "ce2e8ffaa9608a26f7b21afc1db89cadb54fd353",
            "9556057aee5abb06912922e9f26c46386a816822",
            "9152eeee2328073cf23dcf8e90c949170b711659",
            "17d78c64cef6c33a10a604573fd2c429e477fd63",
            "9902e3c3e8f0c569b4ab295ddf473e6de763e1e7",
            "134385f6d781b7e97062102c6a483440bfda2a03",
        ],
    )
}

#[test]
fn chain_of_three_yields_in_order() {
    // A -> [B], B -> [C], C -> []: traversing from A yields [A, B, C].
    let a = byte_id(0xaa);
    let b = byte_id(0xbb);
    let c = byte_id(0xcc);
    let mut db = MemoryResolver::new();
    add_commit(&mut db, &c, &[]);
    add_commit(&mut db, &b, &[&c]);
    add_commit(&mut db, &a, &[&b]);
    let mut walker = Walker::new(&db, a.clone());
    let oids = walker.run_to_end().unwrap();
    assert_eq!(oids, vec![a, b, c]);
}

#[test]
fn merge_yields_shared_ancestor_once() {
    // m -> [p1, p2], p1 -> [g], p2 -> [g], g -> []: g appears exactly once
    // and the output has length 4, not 5.
    let m = byte_id(0x11);
    let p1 = byte_id(0x22);
    let p2 = byte_id(0x33);
    let g = byte_id(0x44);
    let mut db = MemoryResolver::new();
    add_commit(&mut db, &g, &[]);
    add_commit(&mut db, &p1, &[&g]);
    add_commit(&mut db, &p2, &[&g]);
    add_commit(&mut db, &m, &[&p1, &p2]);
    let mut walker = Walker::new(&db, m.clone());
    let oids = walker.run_to_end().unwrap();
    assert_eq!(oids.len(), 4);
    assert_eq!(oids, vec![m, p1, p2, g.clone()]);
    assert_eq!(oids.iter().filter(|id| **id == g).count(), 1);
}

#[test]
fn root_commit_yields_one_element() {
    let root = byte_id(0x55);
    let mut db = MemoryResolver::new();
    add_commit(&mut db, &root, &[]);
    let mut walker = Walker::new(&db, root.clone());
    assert_eq!(walker.next(), Some(Ok(root)));
    assert_eq!(walker.next(), None);
    assert_eq!(walker.next(), None);
}

#[test]
fn missing_ancestor_surfaces_not_found_then_terminates() {
    // A -> [B] with B absent: A is yielded, then NotFound(B), then the
    // sequence is over for good.
    let a = byte_id(0xa1);
    let b = byte_id(0xb2);
    let mut db = MemoryResolver::new();
    add_commit(&mut db, &a, &[&b]);
    let mut walker = Walker::new(&db, a.clone());
    assert_eq!(walker.next(), Some(Ok(a)));
    match walker.next() {
        Some(Err(TraversalError::NotFound(id))) => assert_eq!(id, b),
        other => panic!("expected NotFound, got {:?}", other),
    }
    assert_eq!(walker.next(), None);
    assert_eq!(walker.next(), None);
}

#[test]
fn missing_tip_fails_on_first_pull() {
    let tip = byte_id(0x77);
    let db = MemoryResolver::new();
    let mut walker = Walker::new(&db, tip.clone());
    match walker.next() {
        Some(Err(TraversalError::NotFound(id))) => assert_eq!(id, tip),
        other => panic!("expected NotFound, got {:?}", other),
    }
    assert_eq!(walker.next(), None);
}

#[test]
fn non_commit_ancestor_surfaces_unexpected_kind() {
    let a = byte_id(0xc1);
    let tree = byte_id(0xd2);
    let mut db = MemoryResolver::new();
    add_commit(&mut db, &a, &[&tree]);
    db.insert_entry(
        tree.clone(),
        StoreEntry::Object(DecodedObject::of_kind(ObjectKind::Tree)),
    );
    let mut walker = Walker::new(&db, a.clone());
    assert_eq!(walker.next(), Some(Ok(a)));
    match walker.next() {
        Some(Err(TraversalError::UnexpectedKind(id))) => assert_eq!(id, tree),
        other => panic!("expected UnexpectedKind, got {:?}", other),
    }
    assert_eq!(walker.next(), None);
}

#[test]
fn corrupt_ancestor_surfaces_decode_error() {
    let a = byte_id(0xe1);
    let bad = byte_id(0xf2);
    let mut db = MemoryResolver::new();
    add_commit(&mut db, &a, &[&bad]);
    db.insert_entry(bad.clone(), StoreEntry::Corrupt);
    let mut walker = Walker::new(&db, a.clone());
    assert_eq!(walker.next(), Some(Ok(a)));
    match walker.next() {
        Some(Err(TraversalError::Decode(id, cause))) => {
            assert_eq!(id, bad);
            assert_eq!(cause, ResolveError::Corrupt);
        },
        other => panic!("expected Decode, got {:?}", other),
    }
    assert_eq!(walker.next(), None);
}

#[test]
fn unreadable_ancestor_surfaces_io_decode_error() {
    let a = byte_id(0x91);
    let bad = byte_id(0x92);
    let mut db = MemoryResolver::new();
    add_commit(&mut db, &a, &[&bad]);
    db.insert_entry(bad.clone(), StoreEntry::Io);
    let mut walker = Walker::new(&db, a.clone());
    assert_eq!(walker.next(), Some(Ok(a)));
    match walker.next() {
        Some(Err(TraversalError::Decode(id, cause))) => {
            assert_eq!(id, bad);
            assert_eq!(cause, ResolveError::Io);
        },
        other => panic!("expected Decode, got {:?}", other),
    }
}

#[test]
fn duplicate_parent_entries_are_filtered() {
    // A commit listing the same parent twice must not crash nor yield it
    // twice.
    let a = byte_id(0x61);
    let b = byte_id(0x62);
    let mut db = MemoryResolver::new();
    add_commit(&mut db, &b, &[]);
    add_commit(&mut db, &a, &[&b, &b]);
    let mut walker = Walker::new(&db, a.clone());
    let oids = walker.run_to_end().unwrap();
    assert_eq!(oids, vec![a, b]);
}

#[test]
fn partial_traversal_can_stop_early() {
    let db = db();
    let head = hex_to_id("01ec18a3ebf2855708ad3c9d244306bc1fae3e9b");
    let mut walker = Walker::new(&db, head.clone());
    assert_eq!(walker.next(), Some(Ok(head)));
    // Dropping the walker here abandons the rest of the history.
}

#[test]
fn tip_is_always_yielded_first() {
    let db = db();
    for tip in [
        "134385f6d781b7e97062102c6a483440bfda2a03",
        "ce2e8ffaa9608a26f7b21afc1db89cadb54fd353",
        "01ec18a3ebf2855708ad3c9d244306bc1fae3e9b",
    ] {
        let head = hex_to_id(tip);
        let mut walker = Walker::new(&db, head.clone());
        let oids = walker.run_to_end().unwrap();
        assert_eq!(oids[0], head);
    }
}
