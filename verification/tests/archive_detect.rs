use wings_core::archive::{
    archive_type_of_name, classify_archive, detect_compression, epoch_seconds, estimated_size,
    ArchiveType, CompressionLevel, CompressionType,
};

fn header16(prefix: &[u8]) -> Vec<u8> {
    let mut h = prefix.to_vec();
    while h.len() < 16 {
        h.push(0);
    }
    h
}

#[test]
fn compression_levels_are_fixed() {
    assert_eq!(CompressionLevel::BestSpeed.flate2_compression_level(), 1);
    assert_eq!(CompressionLevel::GoodSpeed.flate2_compression_level(), 3);
    assert_eq!(CompressionLevel::GoodCompression.flate2_compression_level(), 6);
    assert_eq!(CompressionLevel::BestCompression.flate2_compression_level(), 9);
    assert_eq!(CompressionLevel::BestSpeed.zstd_compression_level(), 1);
    assert_eq!(CompressionLevel::GoodSpeed.zstd_compression_level(), 7);
    assert_eq!(CompressionLevel::GoodCompression.zstd_compression_level(), 13);
    assert_eq!(CompressionLevel::BestCompression.zstd_compression_level(), 22);
    assert_eq!(CompressionLevel::default().flate2_compression_level(), 1);
}

#[test]
fn magic_bytes_decide_compression() {
    assert_eq!(detect_compression(&header16(&[0x1f, 0x8b, 0x08])), CompressionType::Gz);
    assert_eq!(detect_compression(&header16(b"BZh9")), CompressionType::Bz2);
    assert_eq!(
        detect_compression(&header16(&[0xfd, 0x37, 0x7a, 0x58, 0x5a, 0x00])),
        CompressionType::Xz
    );
    assert_eq!(detect_compression(&header16(&[0x04, 0x22, 0x4d, 0x18])), CompressionType::Lz4);
    assert_eq!(detect_compression(&header16(&[0x28, 0xb5, 0x2f, 0xfd])), CompressionType::Zstd);
    assert_eq!(detect_compression(&header16(b"plain data")), CompressionType::Plain);
    assert_eq!(detect_compression(&[]), CompressionType::Plain);
}

#[test]
fn file_names_decide_container() {
    assert_eq!(archive_type_of_name("backup.tar"), ArchiveType::Tar);
    assert_eq!(archive_type_of_name("backup.tar.gz"), ArchiveType::Tar);
    assert_eq!(archive_type_of_name("backup.tar.zst"), ArchiveType::Tar);
    assert_eq!(archive_type_of_name("world.zip"), ArchiveType::Zip);
    assert_eq!(archive_type_of_name("old.rar"), ArchiveType::Rar);
    assert_eq!(archive_type_of_name("packed.7z"), ArchiveType::SevenZip);
    assert_eq!(archive_type_of_name("snap.ddup"), ArchiveType::Ddup);
    assert_eq!(archive_type_of_name("noextension"), ArchiveType::Bare);
    assert_eq!(archive_type_of_name(".bashrc"), ArchiveType::Bare);
    // a hidden name ending in .tar still counts as tar, extension or not
    assert_eq!(archive_type_of_name(".tar"), ArchiveType::Tar);
    assert_eq!(archive_type_of_name("notes.txt"), ArchiveType::Bare);
}

#[test]
fn classify_combines_both() {
    let (c, a) = classify_archive("save.tar.gz", &header16(&[0x1f, 0x8b, 0x08]));
    assert_eq!(c, CompressionType::Gz);
    assert_eq!(a, ArchiveType::Tar);
}

#[test]
fn estimated_sizes() {
    let h = header16(&[]);
    let trailer = [0x78, 0x56, 0x34, 0x12];
    assert_eq!(estimated_size(CompressionType::Plain, &h, 999, &trailer), Some(999));
    assert_eq!(
        estimated_size(CompressionType::Gz, &h, 100, &trailer),
        Some(0x12345678)
    );
    assert_eq!(estimated_size(CompressionType::Gz, &h, 3, &trailer), None);
    assert_eq!(estimated_size(CompressionType::Xz, &h, 100, &trailer), None);
    assert_eq!(estimated_size(CompressionType::Bz2, &h, 100, &trailer), None);

    // lz4 frame with the content-size flag and an 8-byte length of 77
    let mut lz4 = vec![0x04, 0x22, 0x4d, 0x18, 0x08, 77, 0, 0, 0, 0, 0, 0, 0];
    lz4 = header16(&lz4);
    assert_eq!(estimated_size(CompressionType::Lz4, &lz4, 100, &trailer), Some(77));
    // without the flag there is nothing to read
    let mut lz4_no = vec![0x04, 0x22, 0x4d, 0x18, 0x00];
    lz4_no = header16(&lz4_no);
    assert_eq!(estimated_size(CompressionType::Lz4, &lz4_no, 100, &trailer), None);

    // zstd single-segment frame: one-byte content size
    let zs1 = header16(&[0x28, 0xb5, 0x2f, 0xfd, 0x20, 42]);
    assert_eq!(estimated_size(CompressionType::Zstd, &zs1, 100, &trailer), Some(42));
    // two-byte form
    let zs2 = header16(&[0x28, 0xb5, 0x2f, 0xfd, 0x01, 0x10, 0x02]);
    assert_eq!(estimated_size(CompressionType::Zstd, &zs2, 100, &trailer), Some(0x0210));
    // four-byte form
    let zs4 = header16(&[0x28, 0xb5, 0x2f, 0xfd, 0x02, 1, 0, 0, 1]);
    assert_eq!(
        estimated_size(CompressionType::Zstd, &zs4, 100, &trailer),
        Some(0x0100_0001)
    );
    // no content size and not single-segment
    let zs_none = header16(&[0x28, 0xb5, 0x2f, 0xfd, 0x00, 9]);
    assert_eq!(estimated_size(CompressionType::Zstd, &zs_none, 100, &trailer), None);
}

#[test]
fn civil_dates_to_epoch_seconds() {
    assert_eq!(epoch_seconds(1970, 1, 1, 0, 0, 0), Some(0));
    assert_eq!(epoch_seconds(2024, 1, 2, 3, 4, 5), Some(1_704_164_645));
    // leap day exists in 2024, not in 2023
    assert_eq!(epoch_seconds(2024, 2, 29, 0, 0, 0), Some(1_709_164_800));
    assert_eq!(epoch_seconds(2023, 2, 29, 0, 0, 0), None);
    assert_eq!(epoch_seconds(2024, 13, 1, 0, 0, 0), None);
    assert_eq!(epoch_seconds(1969, 12, 31, 23, 59, 59), None);
}
