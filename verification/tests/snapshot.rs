use ghostsnap::crypto::Encryptor;
use ghostsnap::error::Error;
use ghostsnap::snapshot::{Snapshot, SnapshotManager, Tree};
use ghostsnap::types::{ChunkID, NodeType, TreeNode};

fn snapshot(id: &str, host: &str, time: i64, tags: &[&str], paths: &[&str]) -> Snapshot {
    Snapshot::assemble(
        String::from(id),
        paths.iter().map(|p| String::from(*p)).collect(),
        ChunkID::new([1u8; 32]),
        Some(String::from(host)),
        None,
        Some(String::from("alice")),
        time,
    )
    .with_tags(tags.iter().map(|t| String::from(*t)).collect())
}

fn node(name: &str, kind: NodeType, size: u64) -> TreeNode {
    TreeNode {
        name: String::from(name),
        node_type: kind,
        mode: 0o644,
        uid: 1,
        gid: 2,
        size,
        mtime: 3,
        subtree_id: None,
        chunks: Vec::new(),
    }
}

#[test]
fn new_snapshot_has_a_fresh_identifier_and_no_parent() {
    let tree = ChunkID::from_data(b"tree");
    let first = Snapshot::new(vec![String::from("/home")], tree, Some(String::from("bob")), Some(String::from("carl")));
    let second = Snapshot::new(vec![String::from("/home")], tree, None, None);
    assert_eq!(first.id.len(), 36);
    assert_eq!(first.id.matches('-').count(), 4);
    assert_ne!(first.id, second.id);
    assert_eq!(first.parent, None);
    assert_eq!(first.tree, tree);
    assert_eq!(first.paths, vec![String::from("/home")]);
    assert_eq!(first.username, "bob");
    assert_eq!(second.username, "unknown");
    assert!(!first.hostname.is_empty());
    assert!(first.time > 1_600_000_000);
    assert!(first.tags.is_empty() && first.excludes.is_empty());
    let third = Snapshot::new(Vec::new(), tree, None, Some(String::from("carl")));
    assert_eq!(third.username, "carl");
}

#[test]
fn builders_set_one_field_each() {
    let s = snapshot("0123456789abcdef", "host", 5, &[], &["/a"])
        .with_parent(String::from("parent"))
        .with_tags(vec![String::from("daily")])
        .with_excludes(vec![String::from("*.tmp")]);
    assert_eq!(s.parent, Some(String::from("parent")));
    assert_eq!(s.tags, vec![String::from("daily")]);
    assert_eq!(s.excludes, vec![String::from("*.tmp")]);
    assert_eq!(s.id, "0123456789abcdef");
    assert_eq!(s.hostname, "host");
    assert_eq!(s.username, "alice");
    assert_eq!(s.time, 5);
    let unknown = Snapshot::assemble(String::from("x"), Vec::new(), ChunkID::new([0u8; 32]), None, None, None, 0);
    assert_eq!(unknown.hostname, "unknown");
    assert_eq!(unknown.username, "unknown");
    let copy = s.clone();
    assert_eq!((copy.id, copy.parent, copy.tags, copy.paths), (s.id, s.parent, s.tags, s.paths));
}

#[test]
fn short_id_and_summary() {
    let s = snapshot("0123456789abcdef", "backup-host", 1431648000, &[], &["/a", "/b"]);
    assert_eq!(s.short_id(), "01234567");
    assert_eq!(s.summary(), "01234567 - 2 paths on backup-host at 2015-05-15 00:00:00 UTC");
    let short = snapshot("äbc", "h", 0, &[], &[]);
    assert_eq!(short.short_id(), "äbc");
    assert_eq!(short.summary(), "äbc - 0 paths on h at 1970-01-01 00:00:00 UTC");
    let many: Vec<&str> = vec!["/p"; 12];
    let far = snapshot("ääääääääää", "h", i64::MAX, &[], &many);
    assert_eq!(far.short_id(), "ääääääää");
    assert_eq!(far.summary(), "ääääääää - 12 paths on h at unknown time");
}

#[test]
fn sealed_json_opens_again() {
    let key = Encryptor::new(&[4u8; 32]).unwrap();
    let json = br#"{"id":"x"}"#.to_vec();
    let sealed = Snapshot::serialize(Ok(json.clone()), &key).unwrap();
    assert_eq!(sealed.len(), json.len() + 28);
    assert_eq!(Snapshot::deserialize(&sealed, &key).unwrap(), json);
    assert_eq!(Tree::deserialize(&Tree::serialize(Ok(json.clone()), &key).unwrap(), &key).unwrap(), json);
    assert_eq!(
        Snapshot::serialize(Err(String::from("bad value")), &key),
        Err(Error::Other(String::from("Failed to serialize snapshot: bad value")))
    );
    assert_eq!(
        Tree::serialize(Err(String::from("bad value")), &key),
        Err(Error::Other(String::from("Failed to serialize tree: bad value")))
    );
    let mut bad = sealed.clone();
    bad[20] ^= 1;
    assert!(matches!(Snapshot::deserialize(&bad, &key), Err(Error::Encryption(_))));
    assert!(matches!(Tree::deserialize(&[1, 2, 3], &key), Err(Error::Encryption(_))));
}

#[test]
fn tree_counts_and_finds() {
    let mut tree = Tree::new();
    assert_eq!((tree.total_size(), tree.file_count(), tree.dir_count()), (0, 0, 0));
    assert!(tree.find_node("a").is_none());
    tree.add_node(node("a", NodeType::File, 10));
    tree.add_node(node("d", NodeType::Directory, 0));
    tree.add_node(node("b", NodeType::File, 32));
    tree.add_node(node("l", NodeType::Symlink, 1));
    tree.add_node(node("b", NodeType::Directory, 7));
    assert_eq!(tree.total_size(), 50);
    assert_eq!(tree.file_count(), 2);
    assert_eq!(tree.dir_count(), 2);
    assert_eq!(tree.nodes.len(), 5);
    let found = tree.find_node("b").unwrap();
    assert_eq!((found.size, found.node_type), (32, NodeType::File));
    assert!(tree.find_node("B").is_none());
    assert!(tree.find_node("").is_none());
}

#[test]
fn manager_holds_one_snapshot_for_each_identifier() {
    let mut manager = SnapshotManager::new();
    assert_eq!(manager.snapshot_count(), 0);
    manager.add_snapshot(snapshot("one", "h1", 10, &["daily"], &["/a"]));
    manager.add_snapshot(snapshot("two", "h2", 30, &["weekly", "daily"], &["/b"]));
    manager.add_snapshot(snapshot("three", "h1", 20, &[], &["/a", "/b"]));
    assert_eq!(manager.snapshot_count(), 3);
    assert_eq!(manager.get_snapshot("two").unwrap().time, 30);
    assert!(manager.get_snapshot("four").is_none());
    manager.add_snapshot(snapshot("two", "h2", 5, &["weekly"], &["/b"]));
    assert_eq!(manager.snapshot_count(), 3);
    assert_eq!(manager.get_snapshot("two").unwrap().time, 5);

    let ids = |found: Vec<&Snapshot>| found.iter().map(|s| s.id.clone()).collect::<Vec<_>>();
    assert_eq!(ids(manager.list_snapshots()), vec!["three", "one", "two"]);
    assert_eq!(ids(manager.find_snapshots_by_hostname("h1")), vec!["three", "one"]);
    assert_eq!(ids(manager.find_snapshots_by_hostname("h")), Vec::<String>::new());
    assert_eq!(ids(manager.find_snapshots_by_path("/b")), vec!["three", "two"]);
    assert_eq!(ids(manager.find_snapshots_by_path("/")), Vec::<String>::new());
    assert_eq!(ids(manager.find_snapshots_by_tag("daily")), vec!["one"]);
    assert_eq!(ids(manager.find_snapshots_by_tag("weekly")), vec!["two"]);

    let removed = manager.remove_snapshot("one").unwrap();
    assert_eq!(removed.id, "one");
    assert!(manager.remove_snapshot("one").is_none());
    assert_eq!(manager.snapshot_count(), 2);
    assert_eq!(ids(manager.list_snapshots()), vec!["three", "two"]);
}

#[test]
fn selection_of_the_snapshots_to_show() {
    let mut manager = SnapshotManager::new();
    manager.add_snapshot(snapshot("one", "h1", 10, &["daily"], &["/a"]));
    manager.add_snapshot(snapshot("two", "h2", 30, &["weekly", "daily"], &["/b"]));
    manager.add_snapshot(snapshot("three", "h1", 20, &[], &["/a", "/b"]));
    manager.add_snapshot(snapshot("four", "h1", 40, &["monthly"], &["/a"]));
    let ids = |found: Vec<&Snapshot>| found.iter().map(|s| s.id.clone()).collect::<Vec<_>>();
    let tags = |t: &[&str]| t.iter().map(|t| String::from(*t)).collect::<Vec<_>>();
    assert_eq!(ids(manager.select(&None, &tags(&[]), None)), vec!["four", "two", "three", "one"]);
    assert_eq!(ids(manager.select(&None, &tags(&[]), Some(2))), vec!["four", "two"]);
    assert_eq!(ids(manager.select(&None, &tags(&[]), Some(0))), Vec::<String>::new());
    assert_eq!(ids(manager.select(&None, &tags(&[]), Some(9))).len(), 4);
    assert_eq!(ids(manager.select(&Some(String::from("h1")), &tags(&[]), None)), vec!["four", "three", "one"]);
    assert_eq!(ids(manager.select(&None, &tags(&["daily", "monthly"]), None)), vec!["four", "two", "one"]);
    assert_eq!(ids(manager.select(&Some(String::from("h1")), &tags(&["daily", "x"]), Some(5))), vec!["one"]);
    assert_eq!(ids(manager.select(&Some(String::from("h3")), &tags(&[]), None)), Vec::<String>::new());
}
