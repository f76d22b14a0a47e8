use flint_core::catalog::{Hashtable, ManifestFile};
use flint_core::error::Error;

fn file(name: &str, content: &str) -> ManifestFile {
    ManifestFile { name: name.to_string(), content: Some(content.to_string()) }
}

fn build(files: Vec<ManifestFile>) -> Result<Hashtable, Error> {
    Hashtable::from_files("/tmp/hashes", true, &files)
}

#[test]
fn test_loads_all_txt_files() {
    let files = vec![
        file("a.txt", "0x1a2b3c4d characters/aatrox/base.bin\n0x5e6f7a8b assets/test.dds\n"),
        file("b.txt", "0xabcdef12 data/menu/main.bin\n"),
        file("readme.md", "ignored\n"),
    ];
    assert_eq!(build(files).ok().unwrap().len(), 3);
}

#[test]
fn test_resolve_known() {
    let ht = build(vec![file("h.txt", "0x1a2b3c4d characters/aatrox/base.bin\n")]).ok().unwrap();
    assert_eq!(ht.resolve(0x1a2b3c4d), "characters/aatrox/base.bin");
}

#[test]
fn test_resolve_unknown_returns_hex() {
    let ht = build(vec![file("h.txt", "0x1a2b3c4d test.bin\n")]).ok().unwrap();
    assert_eq!(ht.resolve(0x9999999999999999), "9999999999999999");
}

#[test]
fn test_decimal_hash() {
    let ht = build(vec![file("h.txt", "123456789 test.bin\n")]).ok().unwrap();
    assert_eq!(ht.len(), 1);
    assert_eq!(ht.resolve(123456789), "test.bin");
}

#[test]
fn test_skip_empty_and_comments() {
    let files = vec![file("h.txt", "# comment\n\n0x1a2b3c4d t1.bin\n\n# another\n0x5e6f7a8b t2.bin\n")];
    assert_eq!(build(files).ok().unwrap().len(), 2);
}

#[test]
fn test_nonexistent_dir() {
    let r = Hashtable::from_files("/nonexistent/path/does/not/exist", false, &vec![]);
    assert!(r.is_err());
    if let Err(Error::Hash(msg)) = r {
        assert!(msg.contains("does not exist"));
    } else {
        panic!("Expected Hash error");
    }
}

#[test]
fn test_invalid_hash() {
    let r = build(vec![file("h.txt", "invalid_hash test.bin\n")]);
    assert!(r.is_err());
    if let Err(Error::Parse { line, message, .. }) = r {
        assert_eq!(line, 1);
        assert!(message.contains("Invalid hash value"));
        assert_eq!(message, "Invalid hash value: 'invalid_hash' - must be decimal, hex, or 0x-prefixed hex");
    } else {
        panic!("Expected Parse error");
    }
}

#[test]
fn test_is_empty() {
    assert!(build(vec![]).ok().unwrap().is_empty());
    assert!(!build(vec![file("h.txt", "0x1a2b3c4d t.bin\n")]).ok().unwrap().is_empty());
}

#[test]
fn catalog_hex_fallback_scenario() {
    let ht = build(vec![file("m.txt", "0x1a2b3c4d foo/bar.bin\n")]).ok().unwrap();
    assert_eq!(ht.resolve(0x1a2b3c4d), "foo/bar.bin");
    assert_eq!(ht.resolve(0x9999999999999999), "9999999999999999");
    assert_eq!(ht.resolve(0xab), "00000000000000ab");
}

#[test]
fn catalog_every_entry_resolves() {
    let ht = build(vec![file("m.txt", "1 a/one.bin\n0X2 b/two.bin\nff c/ff.bin\n0x+7 d/seven.bin\n")]);
    let ht = ht.ok().unwrap();
    assert_eq!(ht.len(), 4);
    assert_eq!(ht.resolve(1), "a/one.bin");
    assert_eq!(ht.resolve(2), "b/two.bin");
    assert_eq!(ht.resolve(0xff), "c/ff.bin");
    assert_eq!(ht.resolve(7), "d/seven.bin");
}

#[test]
fn catalog_duplicates_last_line_wins_first_file_wins() {
    let files = vec![
        file("a.txt", "0x10 first.bin\n0x10 second.bin\n"),
        file("b.txt", "0x10 other.bin\n0x11 only_b.bin\n"),
    ];
    let ht = build(files).ok().unwrap();
    assert_eq!(ht.len(), 2);
    assert_eq!(ht.resolve(0x10), "second.bin");
    assert_eq!(ht.resolve(0x11), "only_b.bin");
}

#[test]
fn catalog_paths_keep_spaces_and_trim() {
    let ht = build(vec![file("a.txt", "  0x5 some dir/file name.bin  \r\nnospace\n")]).ok().unwrap();
    assert_eq!(ht.len(), 1);
    assert_eq!(ht.resolve(5), "some dir/file name.bin");
}

#[test]
fn catalog_unreadable_file_is_skipped_and_error_names_file() {
    let files = vec![
        ManifestFile { name: "gone.txt".to_string(), content: None },
        file("ok.txt", "0x1 a.bin\n"),
        file("bad.txt", "0x1 a.bin\n# c\nzz b.bin\n"),
    ];
    match build(files) {
        Err(Error::Parse { line, path, .. }) => {
            assert_eq!(line, 3);
            assert_eq!(path, Some("bad.txt".to_string()));
        }
        _ => panic!("expected a parse error"),
    }
}

#[test]
fn catalog_overflowing_hash_is_invalid() {
    let r = build(vec![file("a.txt", "0x1ffffffffffffffff a.bin\n")]);
    assert!(matches!(r, Err(Error::Parse { line: 1, .. })));
}
