use flint_core::catalog::{index_key, key_value, needs_rebuild, Hashtable, ManifestFile};
use flint_core::checkpoint::{sort_newest_first, Checkpoint};
use flint_core::repath::{
    expected_destinations, is_unused_file, keep_bin, main_bin_candidates, plan_relocations,
    wad_folder_name, RepathConfig,
};
use flint_core::wad::{parse_hash_hex, plan_selection, ExtractItem};

fn renny() -> RepathConfig {
    RepathConfig {
        creator_name: "Sir Dexal".to_string(),
        project_name: "My Renny".to_string(),
        champion: "Renekton".to_string(),
        target_skin_id: 7,
        cleanup_unused: true,
    }
}

#[test]
fn repath_prefix_replaces_spaces() {
    assert_eq!(renny().prefix(), "Sir-Dexal/My-Renny");
}

#[test]
fn repath_main_bin_candidates_and_folder() {
    let c = main_bin_candidates("Renekton", 7);
    assert_eq!(c, vec![
        "data/characters/renekton/skins/skin7.bin".to_string(),
        "data/characters/renekton/skins/skin07.bin".to_string(),
    ]);
    let c = main_bin_candidates("Kayn", 20);
    assert_eq!(c[0], c[1]);
    assert_eq!(wad_folder_name("Renekton"), "renekton.wad.client");
}

#[test]
fn repath_relocation_first_writer_wins() {
    let existing = vec![
        "assets/characters/renekton/skins/skin1/a.dds".to_string(),
        "assets/characters/renekton/skins/skin2/a.dds".to_string(),
        "data/characters/renekton/skins/skin7.bin".to_string(),
        "data/x__concat.bin".to_string(),
    ];
    let moves = plan_relocations(&existing, &vec![true, true, true, true], &renny());
    assert_eq!(moves.len(), 2);
    assert_eq!(moves[0].0, "assets/characters/renekton/skins/skin1/a.dds");
    assert_eq!(moves[0].1, "ASSETS/Sir-Dexal/My-Renny/skin7/a.dds");
    assert_eq!(moves[1].0, "data/x__concat.bin");
    assert_eq!(moves[1].1, "ASSETS/Sir-Dexal/shared/x__concat.bin");
}

#[test]
fn repath_relocation_skips_sources_not_on_disk() {
    let existing = vec![
        "assets/characters/renekton/skins/skin1/a.dds".to_string(),
        "assets/characters/renekton/skins/skin2/a.dds".to_string(),
    ];
    let moves = plan_relocations(&existing, &vec![false, true], &renny());
    assert_eq!(moves.len(), 1);
    assert_eq!(moves[0].0, "assets/characters/renekton/skins/skin2/a.dds");
    assert_eq!(moves[0].1, "ASSETS/Sir-Dexal/My-Renny/skin7/a.dds");
    assert!(plan_relocations(&existing, &vec![], &renny()).is_empty());
}

#[test]
fn repath_bin_whitelist() {
    assert!(keep_bin("data/characters/renekton/skins/skin7.bin", 7));
    assert!(keep_bin("data\\characters\\renekton\\skins\\Skin07.bin", 7));
    assert!(keep_bin("data/characters/renekton/animations/skin7.bin", 7));
    assert!(keep_bin("data/whatever/Renekton__Concat.bin", 7));
    assert!(!keep_bin("data/characters/renekton/skins/skin8.bin", 7));
    assert!(!keep_bin("data/characters/renekton/renekton.bin", 7));
    assert!(!keep_bin("skin7.bin", 7));
}

#[test]
fn repath_unused_files() {
    let existing = vec!["assets/characters/renekton/skins/skin1/a.dds".to_string()];
    let expected = expected_destinations(&existing, &renny());
    assert_eq!(expected, vec!["assets/sir-dexal/my-renny/skin7/a.dds".to_string()]);
    assert!(!is_unused_file("ASSETS/Sir-Dexal/My-Renny/skin7/a.dds", &expected, &renny()));
    assert!(is_unused_file("ASSETS/Sir-Dexal/My-Renny/skin7/b.dds", &expected, &renny()));
    assert!(is_unused_file("assets/characters/renekton/skins/skin1/a.dds", &expected, &renny()));
}

#[test]
fn wad_parse_hash_hex() {
    assert_eq!(parse_hash_hex(" 0x1a2b3c4d5e6f7a8b "), Some(0x1a2b3c4d5e6f7a8b));
    assert_eq!(parse_hash_hex("0x0x00000000000000ff"), Some(0xff));
    assert_eq!(parse_hash_hex("ff"), None);
    assert_eq!(parse_hash_hex("zz2b3c4d5e6f7a8b"), None);
}

#[test]
fn wad_selection_groups_by_archive() {
    let item = |w: &str, h: &str, r: &str| ExtractItem {
        wad_path: w.to_string(),
        path_hash: h.to_string(),
        rel_path: r.to_string(),
    };
    let items = vec![
        item("a.wad", "0000000000000001", "x/one.bin"),
        item("b.wad", "0000000000000002", "y\\two.bin"),
        item("a.wad", "0000000000000003", "../escape.bin"),
        item("a.wad", "bad", "z.bin"),
        item("", "0000000000000004", "z.bin"),
        item("a.wad", "0000000000000005", "five.bin"),
    ];
    let plan = plan_selection(&items);
    assert_eq!(plan.archives, vec!["a.wad".to_string(), "b.wad".to_string()]);
    assert_eq!(plan.skipped, 3);
    assert_eq!(plan.entries.len(), 3);
    assert_eq!(plan.entries[1].archive, 1);
    assert_eq!(plan.entries[1].rel_path, "y/two.bin");
    assert_eq!(plan.entries[2].archive, 0);
    assert_eq!(plan.entries[2].path_hash, 5);
}

#[test]
fn catalog_persistent_index_helpers() {
    let k = index_key(0x0102030405060708);
    assert_eq!(k, vec![1, 2, 3, 4, 5, 6, 7, 8]);
    assert_eq!(key_value(&k), Some(0x0102030405060708));
    assert_eq!(key_value(&[1, 2]), None);
    assert!(needs_rebuild(false, Some(10), &vec![]));
    assert!(!needs_rebuild(true, Some(10), &vec![Some(5), None]));
    assert!(needs_rebuild(true, Some(10), &vec![Some(5), Some(11)]));
    assert!(needs_rebuild(true, None, &vec![Some(1)]));
    assert!(!needs_rebuild(true, None, &vec![None]));
}

#[test]
fn catalog_sorted_entries_status_and_index() {
    let files = vec![ManifestFile { name: "h.txt".to_string(), content: Some("0x30 c\n0x10 a\n0x20 b\n".to_string()) }];
    let t = Hashtable::from_files("d", true, &files).ok().unwrap();
    let e = t.sorted_entries();
    assert_eq!(e, vec![(0x10, "a".to_string()), (0x20, "b".to_string()), (0x30, "c".to_string())]);
    let s = t.status(Some("today".to_string()));
    assert_eq!(s.loaded_count, 3);
    let b = t.index_batch("x.wad", &vec![0x20, 0x99]);
    assert_eq!(b.chunk_count, 2);
    assert_eq!(b.paths, vec!["b".to_string(), "0000000000000099".to_string()]);
    assert!(b.error.is_none());
}

#[test]
fn checkpoint_list_newest_first() {
    let cp = |id: &str, t: i64| Checkpoint {
        id: id.to_string(),
        timestamp_millis: t,
        message: String::new(),
        author: None,
        tags: vec![],
        file_manifest: vec![],
    };
    let sorted = sort_newest_first(vec![cp("a", 5), cp("b", 9), cp("c", 1), cp("d", 7)]);
    let ids: Vec<&str> = sorted.iter().map(|c| c.id.as_str()).collect();
    assert_eq!(ids, vec!["b", "d", "a", "c"]);
}
