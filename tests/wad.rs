use flint_core::catalog::{Hashtable, ManifestFile};
use flint_core::error::Error;
use flint_core::wad::{index_archive, mount_is_bounded, is_safe_relative_path, normalize_rel_path, plan_chunk, read_wad_version};

#[test]
fn test_read_wad_version_33() {
    let version = read_wad_version(&[0x52, 0x57, 3, 3], "mock.wad").ok().unwrap();
    assert_eq!(version, (3, 3), "Should detect WAD version 3.3");
}

#[test]
fn test_read_wad_version_31() {
    let version = read_wad_version(&[0x52, 0x57, 3, 1], "mock.wad").ok().unwrap();
    assert_eq!(version, (3, 1), "Should detect WAD version 3.1");
}

#[test]
fn test_read_wad_version_34() {
    let version = read_wad_version(&[0x52, 0x57, 3, 4], "mock.wad").ok().unwrap();
    assert_eq!(version, (3, 4), "Should detect WAD version 3.4");
}

#[test]
fn test_read_wad_version_invalid_magic() {
    let result = read_wad_version(&[0x00, 0x00, 3, 3], "mock.wad");
    assert!(result.is_err(), "Should fail with invalid magic bytes");
    if let Err(Error::Wad { message, .. }) = result {
        assert!(message.contains("Invalid WAD magic"), "Error should mention invalid magic");
        assert_eq!(message, "Invalid WAD magic bytes: expected 'RW', got '[0, 0]'");
    } else {
        panic!("Expected WAD error with invalid magic message");
    }
}

#[test]
fn wad_version_short_header_is_io_error() {
    assert!(matches!(read_wad_version(&[0x52], "x.wad"), Err(Error::Io { .. })));
    assert!(matches!(read_wad_version(&[0x52, 0x57, 3], "x.wad"), Err(Error::Io { .. })));
    assert!(matches!(read_wad_version(&[0x51, 0x57, 3], "x.wad"), Err(Error::Wad { .. })));
}

#[test]
fn extraction_path_normalization_and_safety() {
    assert_eq!(normalize_rel_path("\\\\data\\characters\\a.bin"), "data/characters/a.bin");
    assert_eq!(normalize_rel_path("//x/y"), "x/y");
    assert!(is_safe_relative_path("data/a.bin"));
    assert!(!is_safe_relative_path("/etc/passwd"));
    assert!(!is_safe_relative_path("a/../b"));
    assert!(!is_safe_relative_path(".."));
    assert!(!is_safe_relative_path("c:/windows"));
    assert!(is_safe_relative_path("a/..b/c"));
    assert!(plan_chunk(1, "../../evil.txt", false).is_none());
    assert!(plan_chunk(1, "data\\..\\..\\evil.txt", false).is_none());
    let p = plan_chunk(1, "/abs/file.bin", false).unwrap();
    assert_eq!(p.rel_path, "abs/file.bin");
}

#[test]
fn extraction_sidecar_on_directory_collision() {
    let p = plan_chunk(0x1a2b3c4d5e6f7a8b, "assets/characters/ahri/skin0.dds", true).unwrap();
    assert_eq!(p.rel_path, "1a2b3c4d5e6f7a8b.dds");
    assert_eq!(p.original, Some("assets/characters/ahri/skin0.dds".to_string()));
    assert_eq!(p.path_hash, 0x1a2b3c4d5e6f7a8b);
    let plain = plan_chunk(7, "assets/characters/ahri/skin0.dds", false).unwrap();
    assert_eq!(plain.rel_path, "assets/characters/ahri/skin0.dds");
    assert_eq!(plain.original, None);
}

#[test]
fn extraction_long_name_falls_back_to_hash() {
    let long = format!("dir/{}.bin", "x".repeat(300));
    let p = plan_chunk(0xff, &long, false).unwrap();
    assert_eq!(p.rel_path, "00000000000000ff.bin");
    let no_ext = plan_chunk(0xff, "dir/noext", true).unwrap();
    assert_eq!(no_ext.rel_path, "00000000000000ff");
}

fn wad_v34(chunks: &[(u64, u32)]) -> Vec<u8> {
    let mut b = vec![0x52, 0x57, 3, 4];
    b.extend_from_slice(&[0u8; 256]);
    b.extend_from_slice(&0u64.to_le_bytes());
    b.extend_from_slice(&(chunks.len() as i32).to_le_bytes());
    for (hash, size) in chunks {
        b.extend_from_slice(&hash.to_le_bytes());
        b.extend_from_slice(&0u32.to_le_bytes());
        b.extend_from_slice(&size.to_le_bytes());
        b.extend_from_slice(&size.to_le_bytes());
        b.push(0);
        b.extend_from_slice(&[0, 0, 0]);
        b.extend_from_slice(&0u64.to_le_bytes());
    }
    b
}

#[test]
fn wad_index_archive_lists_sorted_resolved_hashes() {
    let files = vec![ManifestFile { name: "h.txt".to_string(), content: Some("0x10 data/a.bin\n".to_string()) }];
    let catalog = Hashtable::from_files("d", true, &files).ok().unwrap();
    let bytes = wad_v34(&[(0x20, 0), (0x10, 0)]);
    assert!(mount_is_bounded(&bytes));
    let batch = index_archive(&catalog, "x.wad", &bytes);
    assert!(batch.error.is_none());
    assert_eq!(batch.chunk_count, 2);
    assert_eq!(batch.paths, vec!["data/a.bin".to_string(), "0000000000000020".to_string()]);

    let empty = index_archive(&catalog, "e.wad", &wad_v34(&[]));
    assert!(empty.error.is_none());
    assert_eq!(empty.chunk_count, 0);
}

#[test]
fn wad_index_archive_refuses_oversized_tables() {
    let mut bytes = wad_v34(&[]);
    let n = bytes.len();
    bytes[n - 4..].copy_from_slice(&1_000_000i32.to_le_bytes());
    assert!(!mount_is_bounded(&bytes));
    let batch = index_archive(&Hashtable::empty(), "big.wad", &bytes);
    assert!(batch.error.is_some());
    assert_eq!(batch.chunk_count, 0);

    let mut negative = wad_v34(&[]);
    let n = negative.len();
    negative[n - 4..].copy_from_slice(&(-1i32).to_le_bytes());
    assert!(!mount_is_bounded(&negative));

    let huge = wad_v34(&[(1, 0x7fff_ffff)]);
    assert!(!mount_is_bounded(&huge));

    let bad = index_archive(&Hashtable::empty(), "bad.wad", &[0, 0, 3, 3, 0, 0, 0, 0]);
    assert!(bad.error.unwrap().contains("Failed to mount WAD file"));
}

#[test]
fn wad_subchunked_entry_with_late_frame_is_refused() {
    let mut b = vec![0x52, 0x57, 3, 3];
    b.extend_from_slice(&[0u8; 256]);
    b.extend_from_slice(&0u64.to_le_bytes());
    b.extend_from_slice(&1i32.to_le_bytes());
    let data_offset = (b.len() + 32) as u32;
    b.extend_from_slice(&7u64.to_le_bytes());
    b.extend_from_slice(&data_offset.to_le_bytes());
    b.extend_from_slice(&64i32.to_le_bytes());
    b.extend_from_slice(&16i32.to_le_bytes());
    b.push(0x14);
    b.push(0);
    b.extend_from_slice(&0u16.to_le_bytes());
    b.extend_from_slice(&0u64.to_le_bytes());
    let mut data = vec![0u8; 64];
    data[40..44].copy_from_slice(&[0x28, 0xB5, 0x2F, 0xFD]);
    b.extend_from_slice(&data);
    assert!(!mount_is_bounded(&b));
    let batch = index_archive(&Hashtable::empty(), "late.wad", &b);
    assert!(batch.error.is_some());
    assert_eq!(batch.chunk_count, 0);
}
