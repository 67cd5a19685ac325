use gitrw::objects::{
    object_hash, parse_commit, serialization_round_trips, serialize_commit, serialize_tree,
    CommitRecord, EntryTarget, TreeEntry,
};
use gitrw::patterns::{build_file_delete_patterns, build_folder_delete_patterns};
use gitrw::pipeline::{run_removal, CommitInput, ObjectStore, RefBinding};
use gitrw::rewrite::rewrite_tree;
use gitrw::table::RemapTable;

fn blob(name: &str, hash: u64) -> TreeEntry {
    TreeEntry {
        mode: b"100644".to_vec(),
        name: name.as_bytes().to_vec(),
        hash,
        target: EntryTarget::Blob,
    }
}

fn dir(name: &str, hash: u64, entries: Vec<TreeEntry>) -> TreeEntry {
    TreeEntry {
        mode: b"40000".to_vec(),
        name: name.as_bytes().to_vec(),
        hash,
        target: EntryTarget::Dir(entries),
    }
}

fn le(x: u64) -> Vec<u8> {
    x.to_le_bytes().to_vec()
}

const EMPTY_HASH: u64 = 0xcbf29ce484222325;

#[test]
fn object_hash_known_values() {
    assert_eq!(object_hash(b""), 0xcbf29ce484222325);
    assert_eq!(object_hash(b"a"), 0xaf63dc4c8601ec8c);
}

#[test]
fn empty_tree_serializes_to_no_bytes() {
    let entries: Vec<TreeEntry> = Vec::new();
    assert_eq!(serialize_tree(&entries), Vec::<u8>::new());
    assert_eq!(object_hash(&serialize_tree(&entries)), EMPTY_HASH);
}

#[test]
fn commit_serialization_layout() {
    let c = CommitRecord {
        tree: 5,
        parents: vec![7],
        author: b"a".to_vec(),
        committer: b"c".to_vec(),
        message: b"m".to_vec(),
    };
    let mut expected: Vec<u8> = Vec::new();
    expected.extend(le(5));
    expected.extend(le(1));
    expected.extend(le(7));
    expected.extend(le(1));
    expected.extend(b"a");
    expected.extend(le(1));
    expected.extend(b"c");
    expected.extend(b"m");
    assert_eq!(serialize_commit(&c), expected);
}

#[test]
fn remap_table_lookup() {
    let mut t = RemapTable::new();
    assert_eq!(t.get(1), None);
    t.insert(1, 2);
    assert_eq!(t.get(1), Some(2));
    assert_eq!(t.get(3), None);
}

#[test]
fn file_pattern_removes_exact_root_level_blob() {
    let files: Vec<String> = vec!["test.txt".into()];
    let none: Vec<String> = vec![];
    let fps = build_file_delete_patterns(&files).unwrap();
    let dps = build_folder_delete_patterns(&none).unwrap();

    // `test.txt` is removed from any tree that directly contains it; the
    // near-miss names stay.
    let tree = vec![
        blob("other.txt", 2),
        dir("sub", 3, vec![blob("test.txt", 4)]),
        blob("test.txt", 1),
        blob("test.txt1", 5),
    ];
    let u = rewrite_tree(&tree, &fps, &dps).unwrap();
    assert_eq!(u.entries.len(), 3);
    assert_eq!(u.entries[0].name, b"other.txt".to_vec());
    assert_eq!(u.entries[1].name, b"sub".to_vec());
    assert_eq!(u.entries[2].name, b"test.txt1".to_vec());
    // the subtree was left with zero entries and serializes as a valid
    // (empty) tree object
    match &u.entries[1].target {
        EntryTarget::Dir(sub) => assert!(sub.is_empty()),
        EntryTarget::Blob => panic!("sub must stay a directory"),
    }
    assert_eq!(u.entries[1].hash, EMPTY_HASH);
    assert_eq!(u.objects.len(), 2);
    assert_eq!(u.objects[0].hash, EMPTY_HASH);
    assert!(u.objects[0].bytes.is_empty());
    assert_eq!(u.objects[1].hash, u.hash);
}

#[test]
fn directory_pattern_removes_whole_subtree_in_one_match() {
    let none: Vec<String> = vec![];
    let folders: Vec<String> = vec!["/build/".into()];
    let fps = build_file_delete_patterns(&none).unwrap();
    let dps = build_folder_delete_patterns(&folders).unwrap();

    let src_hash = 77;
    let tree = vec![
        dir(
            "build",
            10,
            vec![blob("out.bin", 11), dir("nested", 12, vec![blob("x", 13)])],
        ),
        dir("src", src_hash, vec![blob("main.rs", 14)]),
    ];
    let u = rewrite_tree(&tree, &fps, &dps).unwrap();
    assert_eq!(u.entries.len(), 1);
    assert_eq!(u.entries[0].name, b"src".to_vec());
    // the untouched subtree keeps its original hash
    assert_eq!(u.entries[0].hash, src_hash);
    // one predicate match drops the subtree whole: no recursion into it,
    // so the only new object is the root tree itself
    assert_eq!(u.objects.len(), 1);
    assert_eq!(u.objects[0].hash, u.hash);
}

#[test]
fn unmatched_tree_rewrites_to_none() {
    let files: Vec<String> = vec!["absent.txt".into()];
    let folders: Vec<String> = vec!["/nowhere/".into()];
    let fps = build_file_delete_patterns(&files).unwrap();
    let dps = build_folder_delete_patterns(&folders).unwrap();
    let tree = vec![blob("a.txt", 1), dir("sub", 2, vec![blob("b.txt", 3)])];
    assert!(rewrite_tree(&tree, &fps, &dps).is_none());
}

#[test]
fn second_rewrite_finds_nothing() {
    let files: Vec<String> = vec!["test.txt".into()];
    let none: Vec<String> = vec![];
    let fps = build_file_delete_patterns(&files).unwrap();
    let dps = build_folder_delete_patterns(&none).unwrap();
    let tree = vec![
        blob("keep.txt", 1),
        dir("sub", 2, vec![blob("test.txt", 3)]),
        blob("test.txt", 4),
    ];
    let u = rewrite_tree(&tree, &fps, &dps).unwrap();
    assert!(rewrite_tree(&u.entries, &fps, &dps).is_none());
}

fn sample_commits() -> Vec<CommitInput> {
    vec![
        CommitInput {
            hash: 100,
            record: CommitRecord {
                tree: 50,
                parents: vec![],
                author: b"au".to_vec(),
                committer: b"co".to_vec(),
                message: b"first".to_vec(),
            },
            tree: vec![blob("keep.txt", 1), blob("test.txt", 2)],
        },
        CommitInput {
            hash: 200,
            record: CommitRecord {
                tree: 60,
                parents: vec![100],
                author: b"au".to_vec(),
                committer: b"co".to_vec(),
                message: b"second".to_vec(),
            },
            tree: vec![blob("keep.txt", 1)],
        },
    ]
}

#[test]
fn child_parent_field_holds_parents_new_hash() {
    let files: Vec<String> = vec!["test.txt".into()];
    let none: Vec<String> = vec![];
    let fps = build_file_delete_patterns(&files).unwrap();
    let dps = build_folder_delete_patterns(&none).unwrap();
    let commits = sample_commits();
    let mut store = ObjectStore { objects: Vec::new() };
    let mut refs: Vec<RefBinding> = Vec::new();
    let (table, emitted) = run_removal(&commits, &fps, &dps, false, &mut store, &mut refs);

    assert_eq!(emitted.len(), 2);
    assert_eq!(emitted[0].old_hash, 100);
    assert_eq!(emitted[1].old_hash, 200);
    // the child's only parent is the parent's new hash, never the stale one
    assert_eq!(emitted[1].record.parents, vec![emitted[0].new_hash]);
    assert_eq!(table.get(100), Some(emitted[0].new_hash));
    assert_eq!(table.get(200), Some(emitted[1].new_hash));
}

#[test]
fn unmatched_commits_are_left_alone() {
    let files: Vec<String> = vec!["absent.txt".into()];
    let none: Vec<String> = vec![];
    let fps = build_file_delete_patterns(&files).unwrap();
    let dps = build_folder_delete_patterns(&none).unwrap();
    let commits = sample_commits();
    let mut store = ObjectStore { objects: Vec::new() };
    let mut refs = vec![RefBinding { name: b"refs/heads/main".to_vec(), target: 200 }];
    let (table, emitted) = run_removal(&commits, &fps, &dps, false, &mut store, &mut refs);
    assert_eq!(table.get(100), None);
    assert_eq!(table.get(200), None);
    assert!(emitted.is_empty());
    assert!(store.objects.is_empty());
    assert_eq!(refs[0].target, 200);
}

#[test]
fn second_pass_produces_empty_table() {
    let files: Vec<String> = vec!["test.txt".into()];
    let none: Vec<String> = vec![];
    let fps = build_file_delete_patterns(&files).unwrap();
    let dps = build_folder_delete_patterns(&none).unwrap();
    let commits = sample_commits();
    let mut store = ObjectStore { objects: Vec::new() };
    let mut refs: Vec<RefBinding> = Vec::new();
    let (_, emitted) = run_removal(&commits, &fps, &dps, false, &mut store, &mut refs);
    assert_eq!(emitted.len(), 2);

    // feed each commit's resulting tree back in under its new hash
    let commits2 = vec![
        CommitInput {
            hash: emitted[0].new_hash,
            record: CommitRecord {
                tree: emitted[0].record.tree,
                parents: vec![],
                author: b"au".to_vec(),
                committer: b"co".to_vec(),
                message: b"first".to_vec(),
            },
            tree: rewrite_tree(&sample_commits()[0].tree, &fps, &dps).unwrap().entries,
        },
        CommitInput {
            hash: emitted[1].new_hash,
            record: CommitRecord {
                tree: emitted[1].record.tree,
                parents: vec![emitted[0].new_hash],
                author: b"au".to_vec(),
                committer: b"co".to_vec(),
                message: b"second".to_vec(),
            },
            tree: vec![blob("keep.txt", 1)],
        },
    ];
    let mut store2 = ObjectStore { objects: Vec::new() };
    let mut refs2: Vec<RefBinding> = Vec::new();
    let (table2, emitted2) = run_removal(&commits2, &fps, &dps, false, &mut store2, &mut refs2);
    assert_eq!(table2.get(commits2[0].hash), None);
    assert_eq!(table2.get(commits2[1].hash), None);
    assert!(emitted2.is_empty());
    assert!(store2.objects.is_empty());
}

#[test]
fn dry_run_reports_same_changes_and_mutates_nothing() {
    let files: Vec<String> = vec!["test.txt".into()];
    let none: Vec<String> = vec![];
    let fps = build_file_delete_patterns(&files).unwrap();
    let dps = build_folder_delete_patterns(&none).unwrap();

    let mut dry_store = ObjectStore { objects: Vec::new() };
    let mut dry_refs = vec![
        RefBinding { name: b"refs/heads/main".to_vec(), target: 200 },
        RefBinding { name: b"refs/tags/v1".to_vec(), target: 999 },
    ];
    let (dry_table, dry_emitted) =
        run_removal(&sample_commits(), &fps, &dps, true, &mut dry_store, &mut dry_refs);

    let mut real_store = ObjectStore { objects: Vec::new() };
    let mut real_refs = vec![
        RefBinding { name: b"refs/heads/main".to_vec(), target: 200 },
        RefBinding { name: b"refs/tags/v1".to_vec(), target: 999 },
    ];
    let (real_table, real_emitted) =
        run_removal(&sample_commits(), &fps, &dps, false, &mut real_store, &mut real_refs);

    // identical compute: same changed set, same new hashes
    assert_eq!(dry_emitted.len(), real_emitted.len());
    for (d, r) in dry_emitted.iter().zip(real_emitted.iter()) {
        assert_eq!(d.old_hash, r.old_hash);
        assert_eq!(d.new_hash, r.new_hash);
    }
    assert_eq!(dry_table.get(100), real_table.get(100));
    assert_eq!(dry_table.get(200), real_table.get(200));

    // the dry run left the store and the refs byte-identical
    assert!(dry_store.objects.is_empty());
    assert_eq!(dry_refs[0].target, 200);
    assert_eq!(dry_refs[1].target, 999);

    // the real run persisted objects and repointed only the mapped ref
    assert!(!real_store.objects.is_empty());
    assert_eq!(real_refs[0].target, real_table.get(200).unwrap());
    assert_eq!(real_refs[0].name, b"refs/heads/main".to_vec());
    assert_eq!(real_refs[1].target, 999);
}

#[test]
fn serialization_round_trip() {
    let c = CommitRecord {
        tree: 0xdeadbeef,
        parents: vec![1, 2, 3],
        author: b"A U Thor <a@example.com>".to_vec(),
        committer: b"C O Mitter <c@example.com>".to_vec(),
        message: b"subject\n\nbody".to_vec(),
    };
    let bytes = serialize_commit(&c);
    let p = parse_commit(&bytes).unwrap();
    assert_eq!(p.tree, c.tree);
    assert_eq!(p.parents, c.parents);
    assert_eq!(p.author, c.author);
    assert_eq!(p.committer, c.committer);
    assert_eq!(p.message, c.message);
    assert!(serialization_round_trips(&c));
    assert!(parse_commit(b"short").is_none());
}
