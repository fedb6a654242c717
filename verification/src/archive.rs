//! Archive container and compression formats: the level values handed to
//! the codecs, magic-number detection on a file's first bytes, the container
//! format inferred from a file name, and the estimated decompressed size
//! read from a compressed file's header or trailer.

use vstd::prelude::*;
use vstd::string::StrSliceExecFns;

verus! {

/// Compression applied around a container, detected from a file's first bytes.
#[derive(Clone, Copy, PartialEq, Eq, Structural, Debug)]
pub enum CompressionType {
    Plain,
    Gz,
    Xz,
    Bz2,
    Lz4,
    Zstd,
}

/// Configured trade-off between speed and ratio for backup compression.
#[derive(Clone, Copy, PartialEq, Eq, Structural, Debug)]
pub enum CompressionLevel {
    BestSpeed,
    GoodSpeed,
    GoodCompression,
    BestCompression,
}

impl Default for CompressionLevel {
    fn default() -> (r: Self)
        ensures
            r == CompressionLevel::BestSpeed,
    {
        CompressionLevel::BestSpeed
    }
}

/// Container format of an archive on disk.
#[derive(Clone, Copy, PartialEq, Eq, Structural, Debug)]
pub enum ArchiveType {
    Bare,
    Tar,
    Zip,
    Rar,
    SevenZip,
    Ddup,
}

pub open spec fn spec_flate2_level(l: CompressionLevel) -> u32 {
    match l {
        CompressionLevel::BestSpeed => 1u32,
        CompressionLevel::GoodSpeed => 3u32,
        CompressionLevel::GoodCompression => 6u32,
        CompressionLevel::BestCompression => 9u32,
    }
}

pub open spec fn spec_zstd_level(l: CompressionLevel) -> i32 {
    match l {
        CompressionLevel::BestSpeed => 1i32,
        CompressionLevel::GoodSpeed => 7i32,
        CompressionLevel::GoodCompression => 13i32,
        CompressionLevel::BestCompression => 22i32,
    }
}

impl CompressionLevel {
    /// The numeric deflate quality handed to gzip and zip encoders.
    pub fn flate2_compression_level(self) -> (r: u32)
        ensures
            r == spec_flate2_level(self),
    {
        match self {
            CompressionLevel::BestSpeed => 1,
            CompressionLevel::GoodSpeed => 3,
            CompressionLevel::GoodCompression => 6,
            CompressionLevel::BestCompression => 9,
        }
    }

    /// The numeric quality handed to zstd encoders.
    pub fn zstd_compression_level(self) -> (r: i32)
        ensures
            r == spec_zstd_level(self),
    {
        match self {
            CompressionLevel::BestSpeed => 1,
            CompressionLevel::GoodSpeed => 7,
            CompressionLevel::GoodCompression => 13,
            CompressionLevel::BestCompression => 22,
        }
    }
}

/// Compression named by the first bytes of a file: gzip, bzip2, xz, lz4 and
/// zstd each open with a fixed magic sequence.
pub open spec fn spec_detect_compression(h: Seq<u8>) -> CompressionType {
    if h.len() >= 3 && h[0] == 0x1fu8 && h[1] == 0x8bu8 && h[2] == 0x08u8 {
        CompressionType::Gz
    } else if h.len() >= 3 && h[0] == 0x42u8 && h[1] == 0x5au8 && h[2] == 0x68u8 {
        CompressionType::Bz2
    } else if h.len() >= 6 && h[0] == 0xfdu8 && h[1] == 0x37u8 && h[2] == 0x7au8 && h[3] == 0x58u8
        && h[4] == 0x5au8 && h[5] == 0x00u8 {
        CompressionType::Xz
    } else if h.len() >= 4 && h[0] == 0x04u8 && h[1] == 0x22u8 && h[2] == 0x4du8 && h[3]
        == 0x18u8 {
        CompressionType::Lz4
    } else if h.len() >= 4 && h[0] == 0x28u8 && h[1] == 0xb5u8 && h[2] == 0x2fu8 && h[3]
        == 0xfdu8 {
        CompressionType::Zstd
    } else {
        CompressionType::Plain
    }
}

/// Detects the compression of a file from its first bytes.
pub fn detect_compression(header: &[u8]) -> (t: CompressionType)
    ensures
        t == spec_detect_compression(header@),
{
    let n = header.len();
    if n >= 3 && header[0] == 0x1f && header[1] == 0x8b && header[2] == 0x08 {
        CompressionType::Gz
    } else if n >= 3 && header[0] == 0x42 && header[1] == 0x5a && header[2] == 0x68 {
        CompressionType::Bz2
    } else if n >= 6 && header[0] == 0xfd && header[1] == 0x37 && header[2] == 0x7a && header[3]
        == 0x58 && header[4] == 0x5a && header[5] == 0x00 {
        CompressionType::Xz
    } else if n >= 4 && header[0] == 0x04 && header[1] == 0x22 && header[2] == 0x4d && header[3]
        == 0x18 {
        CompressionType::Lz4
    } else if n >= 4 && header[0] == 0x28 && header[1] == 0xb5 && header[2] == 0x2f && header[3]
        == 0xfd {
        CompressionType::Zstd
    } else {
        CompressionType::Plain
    }
}

pub open spec fn chars_suffix(name: Seq<char>, suffix: Seq<char>) -> bool {
    name.len() >= suffix.len() && name.subrange(name.len() - suffix.len(), name.len() as int)
        == suffix
}

/// True when the characters of `name` from `from` to `to` spell `pat`.
pub fn str_range_eq(name: &str, from: usize, to: usize, pat: &str) -> (r: bool)
    requires
        from <= to <= name@.len(),
    ensures
        r == (name@.subrange(from as int, to as int) == pat@),
{
    let pat_len = pat.unicode_len();
    if to - from != pat_len {
        assert(name@.subrange(from as int, to as int).len() != pat@.len());
        return false;
    }
    let mut i: usize = 0;
    while i < pat_len
        invariant
            0 <= i <= pat@.len(),
            from <= to <= name@.len(),
            to - from == pat@.len(),
            pat_len == pat@.len(),
            forall|j: int| 0 <= j < i ==> name@[from + j] == pat@[j],
        decreases pat@.len() - i,
    {
        if name.get_char(from + i) != pat.get_char(i) {
            assert(name@.subrange(from as int, to as int)[i as int] != pat@[i as int]);
            return false;
        }
        i += 1;
    }
    assert(name@.subrange(from as int, to as int) =~= pat@);
    true
}

/// The position of the last `.` of `name` that stands after the first
/// character; a name whose only dot leads (a hidden file) has none.
pub open spec fn spec_last_dot(name: Seq<char>) -> Option<int>
    decreases name.len(),
{
    if name.len() <= 1 {
        Option::None
    } else if name[name.len() - 1] == '.' {
        Some(name.len() - 1)
    } else {
        spec_last_dot(name.drop_last())
    }
}

pub proof fn lemma_last_dot_bounds(name: Seq<char>)
    ensures
        match spec_last_dot(name) {
            Some(i) => 1 <= i < name.len(),
            Option::None => true,
        },
    decreases name.len(),
{
    if name.len() > 1 && name[name.len() - 1] != '.' {
        lemma_last_dot_bounds(name.drop_last());
    }
}

/// Past position `k` no dot stands, so the last dot lies in the prefix.
pub proof fn lemma_last_dot_prefix(name: Seq<char>, k: int)
    requires
        0 <= k <= name.len(),
        forall|j: int| k <= j < name.len() ==> name[j] != '.',
    ensures
        spec_last_dot(name) == spec_last_dot(name.subrange(0, k)),
    decreases name.len() - k,
{
    if k < name.len() {
        assert(name[name.len() - 1] != '.');
        if name.len() > 1 {
            lemma_last_dot_prefix(name.drop_last(), k);
            assert(name.drop_last().subrange(0, k) =~= name.subrange(0, k));
        } else {
            assert(name.len() == 1 && k == 0);
            assert(name.subrange(0, k).len() == 0);
            assert(spec_last_dot(name.subrange(0, k)) is None);
            assert(spec_last_dot(name) is None);
        }
    } else {
        assert(name.subrange(0, k) =~= name);
    }
}

/// Position just past the last qualifying dot: the start of the extension.
pub open spec fn spec_ext_start(name: Seq<char>) -> Option<int> {
    match spec_last_dot(name) {
        Some(i) => Some(i + 1),
        Option::None => Option::None,
    }
}

pub open spec fn spec_extension(name: Seq<char>) -> Option<Seq<char>> {
    match spec_ext_start(name) {
        Some(s) => Some(name.subrange(s, name.len() as int)),
        Option::None => Option::None,
    }
}

/// The stem before the extension's dot, or the whole name without one.
pub open spec fn spec_stem(name: Seq<char>) -> Seq<char> {
    match spec_ext_start(name) {
        Some(s) => name.subrange(0, s - 1),
        Option::None => name,
    }
}

/// Index just past the last dot of `name` when one stands past the first
/// character; `None` for dotless and hidden names.
pub fn extension_start(name: &str) -> (r: Option<usize>)
    ensures
        match r {
            Some(s) => spec_ext_start(name@) == Some(s as int),
            Option::None => spec_ext_start(name@) is None,
        },
{
    let mut i: usize = name.unicode_len();
    while i > 1
        invariant
            0 <= i <= name@.len(),
            forall|j: int| i <= j < name@.len() ==> name@[j] != '.',
        decreases i,
    {
        i -= 1;
        if name.get_char(i) == '.' {
            proof {
                lemma_last_dot_prefix(name@, i + 1);
                let prefix = name@.subrange(0, i + 1);
                assert(prefix.len() == i + 1 > 1);
                assert(prefix[prefix.len() - 1] == '.');
                assert(spec_last_dot(prefix) == Some(i as int));
            }
            return Some(i + 1);
        }
    }
    proof {
        if name@.len() == 0 {
            assert(spec_last_dot(name@) is None);
        } else {
            lemma_last_dot_prefix(name@, 1);
            assert(name@.subrange(0, 1).len() <= 1);
            assert(spec_last_dot(name@) is None);
        }
    }
    Option::None
}

/// The container format a file name announces: a known extension decides;
/// otherwise a stem that still ends in `.tar` (as in `x.tar.gz`, or a
/// hidden name like `.tar` itself) means tar.
pub open spec fn spec_archive_type(name: Seq<char>) -> ArchiveType {
    match spec_extension(name) {
        Some(ext) => {
            if ext == "tar"@ {
                ArchiveType::Tar
            } else if ext == "zip"@ {
                ArchiveType::Zip
            } else if ext == "rar"@ {
                ArchiveType::Rar
            } else if ext == "7z"@ {
                ArchiveType::SevenZip
            } else if ext == "ddup"@ {
                ArchiveType::Ddup
            } else if chars_suffix(spec_stem(name), ".tar"@) {
                ArchiveType::Tar
            } else {
                ArchiveType::Bare
            }
        },
        Option::None => if chars_suffix(spec_stem(name), ".tar"@) {
            ArchiveType::Tar
        } else {
            ArchiveType::Bare
        },
    }
}

/// The container format a file name announces.
pub fn archive_type_of_name(name: &str) -> (t: ArchiveType)
    ensures
        t == spec_archive_type(name@),
{
    let n = name.unicode_len();
    match extension_start(name) {
        Some(s) => {
            proof {
                lemma_last_dot_bounds(name@);
                assert(2 <= s <= name@.len());
            }
            if str_range_eq(name, s, n, "tar") {
                ArchiveType::Tar
            } else if str_range_eq(name, s, n, "zip") {
                ArchiveType::Zip
            } else if str_range_eq(name, s, n, "rar") {
                ArchiveType::Rar
            } else if str_range_eq(name, s, n, "7z") {
                ArchiveType::SevenZip
            } else if str_range_eq(name, s, n, "ddup") {
                ArchiveType::Ddup
            } else {
                let stem_end = s - 1;
                proof {
                    reveal_strlit(".tar");
                    assert(".tar"@.len() == 4);
                }
                if stem_end >= 4 && str_range_eq(name, stem_end - 4, stem_end, ".tar") {
                    proof {
                        assert(spec_stem(name@) == name@.subrange(0, stem_end as int));
                        assert(spec_stem(name@).subrange(
                            stem_end - 4,
                            stem_end as int,
                        ) =~= name@.subrange(stem_end - 4, stem_end as int));
                    }
                    ArchiveType::Tar
                } else {
                    proof {
                        if stem_end >= 4 {
                            assert(spec_stem(name@).subrange(
                                stem_end - 4,
                                stem_end as int,
                            ) =~= name@.subrange(stem_end - 4, stem_end as int));
                        }
                    }
                    ArchiveType::Bare
                }
            }
        },
        Option::None => {
            proof {
                reveal_strlit(".tar");
                assert(".tar"@.len() == 4);
            }
            if n >= 4 && str_range_eq(name, n - 4, n, ".tar") {
                proof {
                    assert(spec_stem(name@) == name@);
                    assert(name@.subrange(n - 4, n as int) =~= spec_stem(name@).subrange(
                        n - 4,
                        n as int,
                    ));
                }
                ArchiveType::Tar
            } else {
                proof {
                    if n >= 4 {
                        assert(name@.subrange(n - 4, n as int) =~= spec_stem(name@).subrange(
                            n - 4,
                            n as int,
                        ));
                    }
                }
                ArchiveType::Bare
            }
        },
    }
}

/// Both halves of opening an archive: compression from the first bytes,
/// container from the file name.
pub fn classify_archive(file_name: &str, header: &[u8]) -> (r: (CompressionType, ArchiveType))
    ensures
        r.0 == spec_detect_compression(header@),
        r.1 == spec_archive_type(file_name@),
{
    (detect_compression(header), archive_type_of_name(file_name))
}

pub open spec fn spec_u16_le(b0: u8, b1: u8) -> u64 {
    (b0 + b1 * 0x100) as u64
}

pub open spec fn spec_u32_le(b0: u8, b1: u8, b2: u8, b3: u8) -> u64 {
    (b0 + b1 * 0x100 + b2 * 0x10000 + b3 * 0x1000000) as u64
}

pub open spec fn spec_u64_le(b: Seq<u8>) -> u64
    recommends
        b.len() == 8,
{
    (spec_u32_le(b[0], b[1], b[2], b[3]) + spec_u32_le(b[4], b[5], b[6], b[7])
        * 0x100000000) as u64
}

/// An lz4 frame whose flags carry the content-size bit stores the
/// decompressed size as eight little-endian bytes after the flag bytes.
pub open spec fn spec_lz4_content_size(h: Seq<u8>) -> Option<u64>
    recommends
        h.len() == 16,
{
    if h[0] == 0x04u8 && h[1] == 0x22u8 && h[2] == 0x4du8 && h[3] == 0x18u8 && (h[4] & 0x08u8)
        != 0u8 {
        Some(spec_u64_le(h.subrange(5, 13)))
    } else {
        Option::None
    }
}

/// A zstd frame header stores the frame content size in 1, 2, 4 or 8 bytes,
/// chosen by the two low bits of the frame header descriptor; the one-byte
/// form exists only for single-segment frames.
pub open spec fn spec_zstd_content_size(h: Seq<u8>) -> Option<u64>
    recommends
        h.len() == 16,
{
    if !(h[0] == 0x28u8 && h[1] == 0xb5u8 && h[2] == 0x2fu8 && h[3] == 0xfdu8) {
        Option::None
    } else {
        let descriptor = h[4];
        let fcs_flag = descriptor & 0x03u8;
        let single_segment = (descriptor & 0x20u8) != 0u8;
        if fcs_flag == 0u8 {
            if single_segment {
                Some(h[5] as u64)
            } else {
                Option::None
            }
        } else if fcs_flag == 1u8 {
            Some(spec_u16_le(h[5], h[6]))
        } else if fcs_flag == 2u8 {
            Some(spec_u32_le(h[5], h[6], h[7], h[8]))
        } else {
            Some(spec_u64_le(h.subrange(5, 13)))
        }
    }
}

/// What the daemon can say of an archive's decompressed size without
/// decoding it: exact for plain files, the gzip trailer's length word for
/// gzip, a header field for lz4 and zstd, nothing for xz and bzip2.
pub open spec fn spec_estimated_size(
    compression: CompressionType,
    h: Seq<u8>,
    file_size: u64,
    gzip_trailer: Seq<u8>,
) -> Option<u64> {
    match compression {
        CompressionType::Plain => Some(file_size),
        CompressionType::Gz => if file_size < 4 {
            Option::None
        } else {
            Some(spec_u32_le(gzip_trailer[0], gzip_trailer[1], gzip_trailer[2], gzip_trailer[3]))
        },
        CompressionType::Xz => Option::None,
        CompressionType::Bz2 => Option::None,
        CompressionType::Lz4 => spec_lz4_content_size(h),
        CompressionType::Zstd => spec_zstd_content_size(h),
    }
}

fn u64_le_bytes(b: &[u8], start: usize) -> (r: u64)
    requires
        start + 8 <= b@.len(),
    ensures
        r == spec_u64_le(b@.subrange(start as int, start + 8)),
{
    let lo: u64 = b[start] as u64 + b[start + 1] as u64 * 0x100 + b[start + 2] as u64 * 0x10000 + b[
        start + 3] as u64 * 0x1000000;
    let hi: u64 = b[start + 4] as u64 + b[start + 5] as u64 * 0x100 + b[start + 6] as u64 * 0x10000
        + b[start + 7] as u64 * 0x1000000;
    let ghost s = b@.subrange(start as int, start + 8);
    assert(s[0] == b@[start as int] && s[1] == b@[start + 1] && s[2] == b@[start + 2] && s[3]
        == b@[start + 3] && s[4] == b@[start + 4] && s[5] == b@[start + 5] && s[6] == b@[start + 6]
        && s[7] == b@[start + 7]);
    lo + hi * 0x100000000
}

/// Estimates the decompressed size of an archive from its first sixteen
/// bytes, its on-disk size, and (for gzip) its last four bytes.
pub fn estimated_size(
    compression: CompressionType,
    header: &[u8],
    file_size: u64,
    gzip_trailer: &[u8],
) -> (r: Option<u64>)
    requires
        header@.len() == 16,
        gzip_trailer@.len() == 4,
    ensures
        r == spec_estimated_size(compression, header@, file_size, gzip_trailer@),
{
    match compression {
        CompressionType::Plain => Some(file_size),
        CompressionType::Gz => {
            if file_size < 4 {
                Option::None
            } else {
                Some(
                    gzip_trailer[0] as u64 + gzip_trailer[1] as u64 * 0x100 + gzip_trailer[2] as u64
                        * 0x10000 + gzip_trailer[3] as u64 * 0x1000000,
                )
            }
        },
        CompressionType::Xz => Option::None,
        CompressionType::Bz2 => Option::None,
        CompressionType::Lz4 => {
            if header[0] == 0x04 && header[1] == 0x22 && header[2] == 0x4d && header[3] == 0x18 && (
            header[4] & 0x08) != 0 {
                Some(u64_le_bytes(header, 5))
            } else {
                Option::None
            }
        },
        CompressionType::Zstd => {
            if !(header[0] == 0x28 && header[1] == 0xb5 && header[2] == 0x2f && header[3] == 0xfd) {
                Option::None
            } else {
                let descriptor = header[4];
                let fcs_flag = descriptor & 0x03;
                let single_segment = (descriptor & 0x20) != 0;
                if fcs_flag == 0 {
                    if single_segment {
                        Some(header[5] as u64)
                    } else {
                        Option::None
                    }
                } else if fcs_flag == 1 {
                    Some(header[5] as u64 + header[6] as u64 * 0x100)
                } else if fcs_flag == 2 {
                    Some(
                        header[5] as u64 + header[6] as u64 * 0x100 + header[7] as u64 * 0x10000
                            + header[8] as u64 * 0x1000000,
                    )
                } else {
                    Some(u64_le_bytes(header, 5))
                }
            }
        },
    }
}

/// Is a year of the civil calendar a leap year?
pub open spec fn spec_is_leap(y: int) -> bool {
    (y % 4 == 0 && y % 100 != 0) || y % 400 == 0
}

pub open spec fn spec_days_in_year(y: int) -> int {
    if spec_is_leap(y) {
        366
    } else {
        365
    }
}

/// Days of the months, February by leap year.
pub open spec fn spec_days_in_month(y: int, m: int) -> int
    recommends
        1 <= m <= 12,
{
    if m == 2 {
        if spec_is_leap(y) {
            29
        } else {
            28
        }
    } else if m == 4 || m == 6 || m == 9 || m == 11 {
        30
    } else {
        31
    }
}

/// Days from the start of 1970 to the start of year `y`.
pub open spec fn spec_days_before_year(y: int) -> int
    recommends
        y >= 1970,
    decreases y - 1970,
{
    if y <= 1970 {
        0
    } else {
        spec_days_before_year(y - 1) + spec_days_in_year(y - 1)
    }
}

/// Days from the start of year `y` to the start of month `m`.
pub open spec fn spec_days_before_month(y: int, m: int) -> int
    recommends
        1 <= m <= 12,
    decreases m,
{
    if m <= 1 {
        0
    } else {
        spec_days_before_month(y, m - 1) + spec_days_in_month(y, m - 1)
    }
}

/// Seconds since the epoch of a civil date and time, as a zip entry's
/// stored modification time decodes when no extended-timestamp field is
/// present; out-of-range fields give nothing.
pub open spec fn spec_epoch_seconds(
    year: u16,
    month: u8,
    day: u8,
    hour: u8,
    minute: u8,
    second: u8,
) -> Option<u64> {
    if 1970 <= year <= 9999 && 1 <= month <= 12 && 1 <= day <= spec_days_in_month(
        year as int,
        month as int,
    ) && hour < 24 && minute < 60 && second < 60 {
        Some(
            ((((spec_days_before_year(year as int) + spec_days_before_month(
                year as int,
                month as int,
            ) + day - 1) * 24 + hour) * 60 + minute) * 60 + second) as u64,
        )
    } else {
        Option::None
    }
}

fn is_leap(y: u16) -> (r: bool)
    ensures
        r == spec_is_leap(y as int),
{
    (y % 4 == 0 && y % 100 != 0) || y % 400 == 0
}

fn days_in_month(y: u16, m: u8) -> (r: u8)
    requires
        1 <= m <= 12,
    ensures
        r == spec_days_in_month(y as int, m as int),
{
    if m == 2 {
        if is_leap(y) {
            29
        } else {
            28
        }
    } else if m == 4 || m == 6 || m == 9 || m == 11 {
        30
    } else {
        31
    }
}

/// Seconds since the epoch of a civil date and time: the conversion a zip
/// entry's date fields go through on extraction.
pub fn epoch_seconds(year: u16, month: u8, day: u8, hour: u8, minute: u8, second: u8) -> (r:
    Option<u64>)
    ensures
        r == spec_epoch_seconds(year, month, day, hour, minute, second),
{
    if !(1970 <= year && year <= 9999 && 1 <= month && month <= 12 && hour < 24 && minute < 60
        && second < 60) {
        return Option::None;
    }
    if !(1 <= day && day <= days_in_month(year, month)) {
        return Option::None;
    }
    let mut days: u64 = 0;
    let mut y: u16 = 1970;
    while y < year
        invariant
            1970 <= y <= year <= 9999,
            days == spec_days_before_year(y as int),
            days <= 366 * (y - 1970),
        decreases year - y,
    {
        if is_leap(y) {
            days = days + 366;
        } else {
            days = days + 365;
        }
        y = y + 1;
    }
    let mut m: u8 = 1;
    while m < month
        invariant
            1 <= m <= month <= 12,
            1970 <= year <= 9999,
            days == spec_days_before_year(year as int) + spec_days_before_month(
                year as int,
                m as int,
            ),
            days <= 366 * (year - 1970) + 31 * (m - 1),
        decreases month - m,
    {
        days = days + days_in_month(year, m) as u64;
        m = m + 1;
    }
    days = days + (day - 1) as u64;
    proof {
        assert(days <= 366 * 9000 + 31 * 12);
    }
    Some((((days * 24 + hour as u64) * 60 + minute as u64) * 60 + second as u64))
}

} // verus!
