use wings_core::backup::{
    backup_file_name, backup_uuid_of_file_name, exclude_args, first_existing_format, hex_lower,
    parse_uuid, restic_backup_result, sha1_hex, sha256_hex, trim_end_all, wings_backup_result,
    BackupProgress, ResticMessage, WingsArchiveFormat,
};
use wings_core::backup::{
    collect_snapshots, content_disposition, content_type, list_backup_uuids, restic_backup_args,
    SnapshotRecord,
};
use wings_core::is_valid_utf8_slice;

#[test]
fn hex_spelling() {
    assert_eq!(hex_lower(&vec![0xde, 0xad, 0xbe, 0xef]), "deadbeef");
    assert_eq!(hex_lower(&vec![0x00, 0x0f]), "000f");
    assert_eq!(hex_lower(&Vec::new()), "");
}

#[test]
fn sha1_known_value() {
    let r = sha1_hex(&b"abc".to_vec());
    assert_eq!(r, "a9993e364706816aba3e25717850c26c9cd0d89d");
    assert_eq!(r.len(), 40);
}

#[test]
fn sha256_known_value() {
    let r = sha256_hex(&b"abc".to_vec());
    assert_eq!(
        r,
        "ba7816bf8f01cfea414140de5dae2223b00361a396177a9cb410ff61f20015ad"
    );
    assert_eq!(r.len(), 64);
}

#[test]
fn backup_file_names() {
    assert_eq!(backup_file_name("u1", WingsArchiveFormat::Tar), "u1.tar");
    assert_eq!(backup_file_name("u1", WingsArchiveFormat::TarGz), "u1.tar.gz");
    assert_eq!(backup_file_name("u1", WingsArchiveFormat::TarZstd), "u1.tar.zst");
    assert_eq!(backup_file_name("u1", WingsArchiveFormat::Zip), "u1.zip");
}

#[test]
fn detection_order_of_existing_files() {
    assert_eq!(
        first_existing_format(true, true, true, true),
        Some(WingsArchiveFormat::Tar)
    );
    assert_eq!(
        first_existing_format(false, true, true, true),
        Some(WingsArchiveFormat::TarGz)
    );
    assert_eq!(
        first_existing_format(false, false, true, true),
        Some(WingsArchiveFormat::TarZstd)
    );
    assert_eq!(
        first_existing_format(false, false, false, true),
        Some(WingsArchiveFormat::Zip)
    );
    assert_eq!(first_existing_format(false, false, false, false), None);
}

#[test]
fn uuid_parsing() {
    let canon = parse_uuid("123e4567-e89b-12d3-a456-426614174000").unwrap();
    assert_eq!(canon, "123e4567-e89b-12d3-a456-426614174000");
    // the simple form is accepted and canonicalized
    let simple = parse_uuid("123e4567e89b12d3a456426614174000").unwrap();
    assert_eq!(simple, "123e4567-e89b-12d3-a456-426614174000");
    assert!(parse_uuid("not-a-uuid").is_none());
}

#[test]
fn listing_trims_extensions() {
    assert_eq!(trim_end_all("x.tar.gz.tar.gz", ".tar.gz"), "x");
    assert_eq!(trim_end_all("x", ".zip"), "x");
    let u = backup_uuid_of_file_name("123e4567-e89b-12d3-a456-426614174000.tar.gz").unwrap();
    assert_eq!(u, "123e4567-e89b-12d3-a456-426614174000");
    let z = backup_uuid_of_file_name("123e4567-e89b-12d3-a456-426614174000.zip").unwrap();
    assert_eq!(z, "123e4567-e89b-12d3-a456-426614174000");
    assert!(backup_uuid_of_file_name("notes.txt").is_none());
}

#[test]
fn download_headers() {
    assert_eq!(content_type(WingsArchiveFormat::Tar), "application/x-tar");
    assert_eq!(content_type(WingsArchiveFormat::TarGz), "application/gzip");
    assert_eq!(content_type(WingsArchiveFormat::Zip), "application/zip");
    assert_eq!(
        content_disposition("u9", WingsArchiveFormat::TarZstd),
        "attachment; filename=u9.tar.zst"
    );
}

#[test]
fn restic_argument_list() {
    let excludes = vec!["*.log".to_string()];
    let args = restic_backup_args(
        "/repo", "/pw", "30s", "/srv/s", &excludes, "u1", "1024", "2048",
    );
    assert_eq!(
        args,
        vec![
            "--json", "--repo", "/repo", "--password-file", "/pw", "--retry-lock", "30s",
            "backup", "/srv/s", "--exclude", "*.log", "--tag", "u1", "--group-by", "tags",
            "--limit-download", "1024", "--limit-upload", "2048",
        ]
    );
}

#[test]
fn backup_result_records() {
    let w = wings_backup_result("aa".repeat(20), 123);
    assert_eq!(w.checksum_type, "sha1");
    assert_eq!(w.size, 123);
    assert!(w.successful);
    assert!(w.parts.is_empty());

    let r = restic_backup_result(Some("snap1".to_string()), 77);
    assert_eq!(r.checksum, "snap1");
    assert_eq!(r.checksum_type, "restic");
    assert_eq!(r.size, 77);
    let r2 = restic_backup_result(None, 0);
    assert_eq!(r2.checksum, "unknown");
}

#[test]
fn restic_progress_stream() {
    let mut p = BackupProgress::new();
    p.apply(ResticMessage::Status { bytes_done: 10, total_bytes: 100 });
    assert_eq!((p.bytes_done, p.total_bytes), (10, 100));
    p.apply(ResticMessage::Other);
    assert_eq!((p.bytes_done, p.total_bytes), (10, 100));
    p.apply(ResticMessage::Summary {
        snapshot_id: Some("abc123".to_string()),
        total_bytes_processed: 100,
    });
    assert_eq!(p.snapshot_id.as_deref(), Some("abc123"));
    assert_eq!(p.total_processed, 100);
}

#[test]
fn exclude_arguments_interleave() {
    let lines = vec!["*.log".to_string(), "cache".to_string()];
    let args = exclude_args(&lines);
    assert_eq!(args, vec!["--exclude", "*.log", "--exclude", "cache"]);
}

#[test]
fn utf8_prefix_detection() {
    assert!(is_valid_utf8_slice(b"abc"));
    // a trailing truncated multi-byte sequence still leaves a valid prefix
    assert!(is_valid_utf8_slice(&[0x61, 0xc3]));
    // a lone continuation byte has no valid nonempty prefix
    assert!(!is_valid_utf8_slice(&[0xc3]));
    assert!(!is_valid_utf8_slice(&[]));
}

#[test]
fn snapshot_listing_builds_registry() {
    let records = vec![
        SnapshotRecord {
            tag: Some("123e4567-e89b-12d3-a456-426614174000".to_string()),
            path: Some("/srv/s1".to_string()),
        },
        SnapshotRecord { tag: Some("not-a-uuid".to_string()), path: Some("/srv/s2".to_string()) },
        SnapshotRecord { tag: None, path: Some("/srv/s3".to_string()) },
        SnapshotRecord {
            tag: Some("00000000000000000000000000000001".to_string()),
            path: None,
        },
    ];
    let reg = collect_snapshots(&records);
    assert_eq!(reg.len(), 1);
    assert_eq!(reg[0].0, "123e4567-e89b-12d3-a456-426614174000");
    assert_eq!(reg[0].1, "/srv/s1");
}

#[test]
fn listing_deduplicates_across_formats() {
    let names = vec![
        "123e4567-e89b-12d3-a456-426614174000.tar.gz".to_string(),
        "123e4567-e89b-12d3-a456-426614174000.zip".to_string(),
        "ffffffff-ffff-ffff-ffff-ffffffffffff.tar".to_string(),
        "notes.txt".to_string(),
    ];
    let uuids = list_backup_uuids(&names);
    assert_eq!(
        uuids,
        vec![
            "123e4567-e89b-12d3-a456-426614174000".to_string(),
            "ffffffff-ffff-ffff-ffff-ffffffffffff".to_string(),
        ]
    );
}
