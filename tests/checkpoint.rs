use flint_core::checkpoint::{
    detect_type, diff_manifests, hex_encode, object_rel_path, plan_restore, preview_kind,
    should_skip_dir, AssetType, Checkpoint, CheckpointManager, FileEntry, PreviewKind,
    SnapshotBuilder,
};

fn entry(path: &str, hash: &str) -> FileEntry {
    FileEntry { path: path.to_string(), hash: hash.to_string(), size: 1, asset_type: AssetType::Unknown }
}

#[test]
fn checkpoint_dedup_two_identical_files() {
    let mut b = SnapshotBuilder::new();
    let first = b.add_file("a/one.txt", b"same bytes");
    let second = b.add_file("b\\two.txt", b"same bytes");
    let third = b.add_file("c.bin", b"other");
    assert!(first.is_some());
    assert!(second.is_none());
    assert!(third.is_some());
    let m = b.into_manifest();
    assert_eq!(m.len(), 3);
    assert_eq!(m[0].hash, m[1].hash);
    assert_ne!(m[0].hash, m[2].hash);
    assert_eq!(m[1].path, "b/two.txt");
    assert_eq!(m[0].size, 10);
    assert_eq!(m[2].asset_type, AssetType::Bin);
    let obj = first.unwrap();
    assert_eq!(obj, format!("{}/{}", &m[0].hash[..2], m[0].hash));
}

#[test]
fn checkpoint_hash_is_sha256_hex() {
    let mut b = SnapshotBuilder::new();
    b.add_file("x.txt", b"abc");
    let m = b.into_manifest();
    assert_eq!(m[0].hash, "ba7816bf8f01cfea414140de5dae2223b00361a396177a9cb410ff61f20015ad");
    assert_eq!(hex_encode(&[0x00, 0xff, 0x1a]), "00ff1a");
}

#[test]
fn checkpoint_same_path_twice_is_kept_once() {
    let mut b = SnapshotBuilder::new();
    assert!(b.add_file("a.txt", b"1").is_some());
    assert!(b.add_file("a.txt", b"2").is_none());
    assert_eq!(b.into_manifest().len(), 1);
}

#[test]
fn checkpoint_object_path_layout() {
    assert_eq!(object_rel_path("abcdef"), "ab/abcdef");
}

#[test]
fn checkpoint_skip_dirs() {
    assert!(should_skip_dir(".flint"));
    assert!(should_skip_dir(".git"));
    assert!(should_skip_dir("node_modules"));
    assert!(should_skip_dir("output"));
    assert!(!should_skip_dir("data"));
}

#[test]
fn checkpoint_detect_type() {
    assert_eq!(detect_type("a/b/c.DDS"), AssetType::Texture);
    assert_eq!(detect_type("x.skn"), AssetType::Model);
    assert_eq!(detect_type("x.anm"), AssetType::Animation);
    assert_eq!(detect_type("x.bin"), AssetType::Bin);
    assert_eq!(detect_type("x.wpk"), AssetType::Audio);
    assert_eq!(detect_type("x.ritobin"), AssetType::Data);
    assert_eq!(detect_type("x.zip"), AssetType::Unknown);
    assert_eq!(detect_type(".bin"), AssetType::Unknown);
    assert_eq!(detect_type("noext"), AssetType::Unknown);
}

#[test]
fn checkpoint_preview_kind() {
    assert_eq!(preview_kind("t.tex"), PreviewKind::Texture);
    assert_eq!(preview_kind("t.PNG"), PreviewKind::Png);
    assert_eq!(preview_kind("t.jpeg"), PreviewKind::Jpeg);
    assert_eq!(preview_kind("t.yml"), PreviewKind::Text);
    assert_eq!(preview_kind("t.skn"), PreviewKind::Binary);
}

#[test]
fn checkpoint_manager_paths() {
    let m = CheckpointManager::new("/proj".to_string());
    assert_eq!(m.checkpoints_dir, "/proj/.flint/checkpoints");
    assert_eq!(m.object_store, "/proj/.flint/objects");
    let m = CheckpointManager::new("/proj/".to_string());
    assert_eq!(m.object_store, "/proj/.flint/objects");
}

#[test]
fn checkpoint_diff() {
    let from = vec![entry("a", "1"), entry("b", "2"), entry("c", "3")];
    let to = vec![entry("b", "2"), entry("c", "9"), entry("d", "4")];
    let d = diff_manifests(&from, &to);
    assert_eq!(d.added.len(), 1);
    assert_eq!(d.added[0].path, "d");
    assert_eq!(d.modified.len(), 1);
    assert_eq!(d.modified[0].0.hash, "3");
    assert_eq!(d.modified[0].1.hash, "9");
    assert_eq!(d.deleted.len(), 1);
    assert_eq!(d.deleted[0].path, "a");
    let cp = |m: Vec<FileEntry>| Checkpoint {
        id: "x".to_string(),
        timestamp_millis: 0,
        message: String::new(),
        author: None,
        tags: vec![],
        file_manifest: m,
    };
    let mgr = CheckpointManager::new("/p".to_string());
    let d2 = mgr.compare_checkpoints(&cp(from), &cp(to));
    assert_eq!(d2.added.len(), 1);
}

#[test]
fn checkpoint_restore_plan() {
    let current = vec!["a".to_string(), "project.json".to_string(), "z".to_string()];
    let target = vec![entry("a", "aa11"), entry("n/b", "bb22")];
    let plan = plan_restore(&current, &target);
    assert_eq!(plan.delete, vec!["z".to_string()]);
    assert_eq!(
        plan.copy,
        vec![
            ("a".to_string(), "aa/aa11".to_string()),
            ("n/b".to_string(), "bb/bb22".to_string())
        ]
    );
}
