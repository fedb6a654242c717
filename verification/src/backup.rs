//! Backup bookkeeping shared by the three adapters: the result record the
//! panel receives, the on-disk file names and their detection order, the
//! checksums, and the snapshot CLI's argument list and progress stream.

use vstd::prelude::*;
use vstd::string::{StrSliceExecFns, StringExecFns};

verus! {

/// One uploaded part of an object-store backup.
#[derive(Debug)]
pub struct RawServerBackupPart {
    pub etag: String,
    pub part_number: usize,
}

/// What a finished backup reports to the panel.
#[derive(Debug)]
pub struct RawServerBackup {
    pub checksum: String,
    pub checksum_type: String,
    pub size: u64,
    pub successful: bool,
    pub parts: Vec<RawServerBackupPart>,
}

/// The archive formats the local adapter writes.
#[derive(Clone, Copy, PartialEq, Eq, Structural, Debug)]
pub enum WingsArchiveFormat {
    Tar,
    TarGz,
    TarZstd,
    Zip,
}

impl WingsArchiveFormat {
    /// The extension of each local backup file.
    pub fn extension(&self) -> (r: &'static str)
        ensures
            match self {
                WingsArchiveFormat::Tar => r@ == "tar"@,
                WingsArchiveFormat::TarGz => r@ == "tar.gz"@,
                WingsArchiveFormat::TarZstd => r@ == "tar.zst"@,
                WingsArchiveFormat::Zip => r@ == "zip"@,
            },
    {
        match self {
            WingsArchiveFormat::Tar => "tar",
            WingsArchiveFormat::TarGz => "tar.gz",
            WingsArchiveFormat::TarZstd => "tar.zst",
            WingsArchiveFormat::Zip => "zip",
        }
    }
}

/// The content type a backup download answers with.
pub fn content_type(format: WingsArchiveFormat) -> (r: &'static str)
    ensures
        match format {
            WingsArchiveFormat::Tar => r@ == "application/x-tar"@,
            WingsArchiveFormat::TarGz => r@ == "application/gzip"@,
            WingsArchiveFormat::TarZstd => r@ == "application/zstd"@,
            WingsArchiveFormat::Zip => r@ == "application/zip"@,
        },
{
    match format {
        WingsArchiveFormat::Tar => "application/x-tar",
        WingsArchiveFormat::TarGz => "application/gzip",
        WingsArchiveFormat::TarZstd => "application/zstd",
        WingsArchiveFormat::Zip => "application/zip",
    }
}

/// The content-disposition header of a backup download:
/// `attachment; filename=<uuid>.<extension>`.
pub fn content_disposition(uuid: &str, format: WingsArchiveFormat) -> (r: String)
    ensures
        ({
            let ext = match format {
                WingsArchiveFormat::Tar => "tar"@,
                WingsArchiveFormat::TarGz => "tar.gz"@,
                WingsArchiveFormat::TarZstd => "tar.zst"@,
                WingsArchiveFormat::Zip => "zip"@,
            };
            r@ == "attachment; filename="@ + spec_backup_file_name(uuid@, ext)
        }),
{
    let mut s = String::new();
    s.append("attachment; filename=");
    let name = backup_file_name(uuid, format);
    s.append(name.as_str());
    s
}

/// The spec image of a local backup file name: `<uuid>.<extension>`.
pub open spec fn spec_backup_file_name(uuid: Seq<char>, ext: Seq<char>) -> Seq<char> {
    uuid + seq!['.'] + ext
}

/// The file name of a local backup, relative to the backup directory.
pub fn backup_file_name(uuid: &str, format: WingsArchiveFormat) -> (r: String)
    ensures
        match format {
            WingsArchiveFormat::Tar => r@ == spec_backup_file_name(uuid@, "tar"@),
            WingsArchiveFormat::TarGz => r@ == spec_backup_file_name(uuid@, "tar.gz"@),
            WingsArchiveFormat::TarZstd => r@ == spec_backup_file_name(uuid@, "tar.zst"@),
            WingsArchiveFormat::Zip => r@ == spec_backup_file_name(uuid@, "zip"@),
        },
{
    let mut s = String::new();
    s.append(uuid);
    s.append(".");
    proof {
        reveal_strlit(".");
        assert("."@ =~= seq!['.']);
    }
    s.append(format.extension());
    s
}

/// Restore, download and delete look for the four extensions in a fixed
/// order: tar, tar.gz, tar.zst, zip; the first present wins. The four
/// flags say which files exist on disk.
pub fn first_existing_format(tar: bool, tar_gz: bool, tar_zst: bool, zip: bool) -> (r: Option<
    WingsArchiveFormat,
>)
    ensures
        r == (if tar {
            Some(WingsArchiveFormat::Tar)
        } else if tar_gz {
            Some(WingsArchiveFormat::TarGz)
        } else if tar_zst {
            Some(WingsArchiveFormat::TarZstd)
        } else if zip {
            Some(WingsArchiveFormat::Zip)
        } else {
            Option::<WingsArchiveFormat>::None
        }),
{
    if tar {
        Some(WingsArchiveFormat::Tar)
    } else if tar_gz {
        Some(WingsArchiveFormat::TarGz)
    } else if tar_zst {
        Some(WingsArchiveFormat::TarZstd)
    } else if zip {
        Some(WingsArchiveFormat::Zip)
    } else {
        Option::None
    }
}

/// The SHA-1 digest of a byte sequence, as the sha1 crate computes it:
/// a function of the bytes alone.
pub uninterp spec fn spec_sha1(data: Seq<u8>) -> Seq<u8>;

/// The SHA-256 digest of a byte sequence, as the sha2 crate computes it:
/// a function of the bytes alone.
pub uninterp spec fn spec_sha256(data: Seq<u8>) -> Seq<u8>;

/// Relies on sha1's Sha1 (Digest::digest): the 20-byte SHA-1 digest of
/// the input, depending on the input alone.
#[verifier::external_body]
pub fn sha1_digest(data: &Vec<u8>) -> (r: Vec<u8>)
    ensures
        r@ == spec_sha1(data@),
        r@.len() == 20,
{
    <sha1::Sha1 as sha1::Digest>::digest(data.as_slice()).to_vec()
}

/// Relies on sha2's Sha256 (Digest::digest): the 32-byte SHA-256 digest
/// of the input, depending on the input alone.
#[verifier::external_body]
pub fn sha256_digest(data: &Vec<u8>) -> (r: Vec<u8>)
    ensures
        r@ == spec_sha256(data@),
        r@.len() == 32,
{
    <sha2::Sha256 as sha2::Digest>::digest(data.as_slice()).to_vec()
}

/// The lowercase hex character of a nibble.
pub open spec fn spec_hex_char(n: u8) -> char
    recommends
        n < 16,
{
    if n == 0 {
        '0'
    } else if n == 1 {
        '1'
    } else if n == 2 {
        '2'
    } else if n == 3 {
        '3'
    } else if n == 4 {
        '4'
    } else if n == 5 {
        '5'
    } else if n == 6 {
        '6'
    } else if n == 7 {
        '7'
    } else if n == 8 {
        '8'
    } else if n == 9 {
        '9'
    } else if n == 10 {
        'a'
    } else if n == 11 {
        'b'
    } else if n == 12 {
        'c'
    } else if n == 13 {
        'd'
    } else if n == 14 {
        'e'
    } else {
        'f'
    }
}

/// The lowercase hex spelling of bytes, two characters each.
pub open spec fn spec_hex(data: Seq<u8>) -> Seq<char>
    decreases data.len(),
{
    if data.len() == 0 {
        Seq::empty()
    } else {
        spec_hex(data.drop_last()) + seq![
            spec_hex_char(data.last() / 16),
            spec_hex_char(data.last() % 16),
        ]
    }
}

fn hex_char_str(n: u8) -> (r: &'static str)
    requires
        n < 16,
    ensures
        r@ == seq![spec_hex_char(n)],
{
    proof {
        reveal_strlit("0");
        reveal_strlit("1");
        reveal_strlit("2");
        reveal_strlit("3");
        reveal_strlit("4");
        reveal_strlit("5");
        reveal_strlit("6");
        reveal_strlit("7");
        reveal_strlit("8");
        reveal_strlit("9");
        reveal_strlit("a");
        reveal_strlit("b");
        reveal_strlit("c");
        reveal_strlit("d");
        reveal_strlit("e");
        reveal_strlit("f");
    }
    if n == 0 {
        proof {
            assert("0"@ =~= seq![spec_hex_char(0)]);
        }
        "0"
    } else if n == 1 {
        proof {
            assert("1"@ =~= seq![spec_hex_char(1)]);
        }
        "1"
    } else if n == 2 {
        proof {
            assert("2"@ =~= seq![spec_hex_char(2)]);
        }
        "2"
    } else if n == 3 {
        proof {
            assert("3"@ =~= seq![spec_hex_char(3)]);
        }
        "3"
    } else if n == 4 {
        proof {
            assert("4"@ =~= seq![spec_hex_char(4)]);
        }
        "4"
    } else if n == 5 {
        proof {
            assert("5"@ =~= seq![spec_hex_char(5)]);
        }
        "5"
    } else if n == 6 {
        proof {
            assert("6"@ =~= seq![spec_hex_char(6)]);
        }
        "6"
    } else if n == 7 {
        proof {
            assert("7"@ =~= seq![spec_hex_char(7)]);
        }
        "7"
    } else if n == 8 {
        proof {
            assert("8"@ =~= seq![spec_hex_char(8)]);
        }
        "8"
    } else if n == 9 {
        proof {
            assert("9"@ =~= seq![spec_hex_char(9)]);
        }
        "9"
    } else if n == 10 {
        proof {
            assert("a"@ =~= seq![spec_hex_char(10)]);
        }
        "a"
    } else if n == 11 {
        proof {
            assert("b"@ =~= seq![spec_hex_char(11)]);
        }
        "b"
    } else if n == 12 {
        proof {
            assert("c"@ =~= seq![spec_hex_char(12)]);
        }
        "c"
    } else if n == 13 {
        proof {
            assert("d"@ =~= seq![spec_hex_char(13)]);
        }
        "d"
    } else if n == 14 {
        proof {
            assert("e"@ =~= seq![spec_hex_char(14)]);
        }
        "e"
    } else {
        proof {
            assert("f"@ =~= seq![spec_hex_char(15)]);
        }
        "f"
    }
}

/// Spells bytes in lowercase hex, two characters each.
pub fn hex_lower(data: &Vec<u8>) -> (r: String)
    ensures
        r@ == spec_hex(data@),
{
    let mut r = String::new();
    let mut i: usize = 0;
    proof {
        assert(data@.subrange(0, 0).len() == 0);
        assert(r@ =~= spec_hex(data@.subrange(0, 0)));
    }
    while i < data.len()
        invariant
            0 <= i <= data@.len(),
            r@ == spec_hex(data@.subrange(0, i as int)),
        decreases data@.len() - i,
    {
        let b = data[i];
        r.append(hex_char_str(b / 16));
        r.append(hex_char_str(b % 16));
        proof {
            assert(data@.subrange(0, i + 1).drop_last() =~= data@.subrange(0, i as int));
            assert(data@.subrange(0, i + 1).last() == data@[i as int]);
        }
        i += 1;
    }
    proof {
        assert(data@.subrange(0, data@.len() as int) =~= data@);
    }
    r
}

/// The hex SHA-1 checksum the local and object-store adapters report.
pub fn sha1_hex(data: &Vec<u8>) -> (r: String)
    ensures
        r@ == spec_hex(spec_sha1(data@)),
        r@.len() == 40,
{
    let d = sha1_digest(data);
    proof {
        lemma_hex_len(d@);
    }
    hex_lower(&d)
}

/// The hex SHA-256 trailer the transfer pipeline streams after the
/// archive.
pub fn sha256_hex(data: &Vec<u8>) -> (r: String)
    ensures
        r@ == spec_hex(spec_sha256(data@)),
        r@.len() == 64,
{
    let d = sha256_digest(data);
    proof {
        lemma_hex_len(d@);
    }
    hex_lower(&d)
}

pub proof fn lemma_hex_len(data: Seq<u8>)
    ensures
        spec_hex(data).len() == 2 * data.len(),
    decreases data.len(),
{
    if data.len() > 0 {
        lemma_hex_len(data.drop_last());
    }
}

/// The canonical hyphenated form of a UUID parsed from a string, as the
/// uuid crate parses and prints it: a function of the string alone, and
/// `None` exactly when the string is no UUID.
pub uninterp spec fn spec_uuid_canon(s: Seq<char>) -> Option<Seq<char>>;

/// Relies on uuid's Uuid::parse_str and its hyphenated Display form.
#[verifier::external_body]
pub fn parse_uuid(s: &str) -> (r: Option<String>)
    ensures
        match r {
            Some(u) => spec_uuid_canon(s@) == Some(u@),
            Option::None => spec_uuid_canon(s@) is None,
        },
{
    match uuid::Uuid::parse_str(s) {
        Ok(u) => Some(u.to_string()),
        Err(_) => Option::None,
    }
}

/// `name` with every trailing repetition of `pat` removed.
pub open spec fn spec_trim_end_all(name: Seq<char>, pat: Seq<char>) -> Seq<char>
    decreases name.len(),
{
    if pat.len() > 0 && pat.len() <= name.len() && name.subrange(
        name.len() - pat.len(),
        name.len() as int,
    ) == pat {
        spec_trim_end_all(name.subrange(0, name.len() - pat.len()), pat)
    } else {
        name
    }
}

/// Removes every trailing repetition of `pat` from `name`.
pub fn trim_end_all(name: &str, pat: &str) -> (r: String)
    ensures
        r@ == spec_trim_end_all(name@, pat@),
{
    let mut n = name.unicode_len();
    let m = pat.unicode_len();
    let mut s: String = String::from_str(name);
    if m == 0 {
        return s;
    }
    while n >= m && crate::archive::str_range_eq(s.as_str(), n - m, n, pat)
        invariant
            m == pat@.len(),
            m > 0,
            n == s@.len(),
            spec_trim_end_all(name@, pat@) == spec_trim_end_all(s@, pat@),
        decreases n,
    {
        let shorter = String::from_str(
            s.as_str().substring_char(0, n - m),
        );
        proof {
            assert(spec_trim_end_all(s@, pat@) == spec_trim_end_all(
                s@.subrange(0, s@.len() - pat@.len()),
                pat@,
            ));
        }
        s = shorter;
        n = n - m;
    }
    s
}

/// The UUID a local backup file name names: its extensions trimmed in the
/// listing's order, then parsed.
pub fn backup_uuid_of_file_name(name: &str) -> (r: Option<String>)
    ensures
        ({
            let trimmed = spec_trim_end_all(
                spec_trim_end_all(
                    spec_trim_end_all(spec_trim_end_all(name@, ".tar.gz"@), ".tar.zst"@),
                    ".tar"@,
                ),
                ".zip"@,
            );
            match r {
                Some(u) => spec_uuid_canon(trimmed) == Some(u@),
                Option::None => spec_uuid_canon(trimmed) is None,
            }
        }),
{
    let t1 = trim_end_all(name, ".tar.gz");
    let t2 = trim_end_all(t1.as_str(), ".tar.zst");
    let t3 = trim_end_all(t2.as_str(), ".tar");
    let t4 = trim_end_all(t3.as_str(), ".zip");
    parse_uuid(t4.as_str())
}

/// The record the local adapter reports: a hex SHA-1 checksum, the
/// archive's size, no parts.
pub fn wings_backup_result(checksum_hex: String, size: u64) -> (r: RawServerBackup)
    ensures
        r.checksum == checksum_hex,
        r.checksum_type@ == "sha1"@,
        r.size == size,
        r.successful,
        r.parts@.len() == 0,
{
    RawServerBackup {
        checksum: checksum_hex,
        checksum_type: String::from_str("sha1"),
        size,
        successful: true,
        parts: Vec::new(),
    }
}

/// The record the object-store adapter reports: one part per recorded
/// ETag, numbered from one in upload order.
pub fn s3_backup_result(checksum_hex: String, size: u64, etags: &Vec<String>) -> (r:
    RawServerBackup)
    ensures
        r.checksum == checksum_hex,
        r.checksum_type@ == "sha1"@,
        r.size == size,
        r.successful,
        r.parts@.len() == etags@.len(),
        forall|i: int|
            0 <= i < etags@.len() ==> (#[trigger] r.parts@[i]).etag == etags@[i]
                && r.parts@[i].part_number == i + 1,
{
    let mut parts: Vec<RawServerBackupPart> = Vec::new();
    let mut i: usize = 0;
    while i < etags.len()
        invariant
            0 <= i <= etags@.len(),
            parts@.len() == i,
            forall|j: int|
                0 <= j < i ==> (#[trigger] parts@[j]).etag == etags@[j] && parts@[j].part_number
                    == j + 1,
        decreases etags@.len() - i,
    {
        parts.push(RawServerBackupPart { etag: etags[i].clone(), part_number: i + 1 });
        i += 1;
    }
    RawServerBackup {
        checksum: checksum_hex,
        checksum_type: String::from_str("sha1"),
        size,
        successful: true,
        parts,
    }
}

/// One line-delimited message of the snapshot CLI's JSON progress stream,
/// already decoded to plain values.
pub enum ResticMessage {
    Status { bytes_done: u64, total_bytes: u64 },
    Summary { snapshot_id: Option<String>, total_bytes_processed: u64 },
    Other,
}

/// The progress the initiator watches while the snapshot CLI runs.
pub struct BackupProgress {
    pub bytes_done: u64,
    pub total_bytes: u64,
    pub snapshot_id: Option<String>,
    pub total_processed: u64,
}

impl BackupProgress {
    pub fn new() -> (r: BackupProgress)
        ensures
            r.bytes_done == 0 && r.total_bytes == 0 && r.snapshot_id is None && r.total_processed
                == 0,
    {
        BackupProgress { bytes_done: 0, total_bytes: 0, snapshot_id: Option::None, total_processed: 0 }
    }

    /// Applies one progress message: a status updates the byte counters, a
    /// summary records the snapshot id and the total processed, anything
    /// else changes nothing.
    pub fn apply(&mut self, m: ResticMessage)
        ensures
            match m {
                ResticMessage::Status { bytes_done, total_bytes } => ({
                    &&& final(self).bytes_done == bytes_done
                    &&& final(self).total_bytes == total_bytes
                    &&& final(self).snapshot_id == old(self).snapshot_id
                    &&& final(self).total_processed == old(self).total_processed
                }),
                ResticMessage::Summary { snapshot_id, total_bytes_processed } => ({
                    &&& final(self).snapshot_id == snapshot_id
                    &&& final(self).total_processed == total_bytes_processed
                    &&& final(self).bytes_done == old(self).bytes_done
                    &&& final(self).total_bytes == old(self).total_bytes
                }),
                ResticMessage::Other => *final(self) == *old(self),
            },
    {
        match m {
            ResticMessage::Status { bytes_done, total_bytes } => {
                self.bytes_done = bytes_done;
                self.total_bytes = total_bytes;
            },
            ResticMessage::Summary { snapshot_id, total_bytes_processed } => {
                self.snapshot_id = snapshot_id;
                self.total_processed = total_bytes_processed;
            },
            ResticMessage::Other => {},
        }
    }
}

/// The record the snapshot adapter reports: the snapshot id as checksum
/// (`unknown` when the summary never came), the processed bytes as size.
pub fn restic_backup_result(snapshot_id: Option<String>, total_processed: u64) -> (r:
    RawServerBackup)
    ensures
        match snapshot_id {
            Some(id) => r.checksum == id,
            Option::None => r.checksum@ == "unknown"@,
        },
        r.checksum_type@ == "restic"@,
        r.size == total_processed,
        r.successful,
        r.parts@.len() == 0,
{
    let checksum = match snapshot_id {
        Some(id) => id,
        Option::None => String::from_str("unknown"),
    };
    RawServerBackup {
        checksum,
        checksum_type: String::from_str("restic"),
        size: total_processed,
        successful: true,
        parts: Vec::new(),
    }
}

/// `--exclude` before each ignore line, in order, for the snapshot CLI.
pub open spec fn spec_exclude_args(lines: Seq<Seq<char>>) -> Seq<Seq<char>>
    decreases lines.len(),
{
    if lines.len() == 0 {
        Seq::empty()
    } else {
        spec_exclude_args(lines.drop_last()) + seq!["--exclude"@, lines.last()]
    }
}

/// Interleaves `--exclude` before each ignore line for the snapshot CLI.
pub fn exclude_args(lines: &Vec<String>) -> (r: Vec<String>)
    ensures
        crate::ignore_rules::pv(r@) == spec_exclude_args(crate::ignore_rules::pv(lines@)),
        r@.len() == 2 * lines@.len(),
{
    let ghost lv = crate::ignore_rules::pv(lines@);
    let mut r: Vec<String> = Vec::new();
    let mut i: usize = 0;
    proof {
        assert(lv.subrange(0, 0).len() == 0);
        assert(crate::ignore_rules::pv(r@) =~= spec_exclude_args(lv.subrange(0, 0)));
    }
    while i < lines.len()
        invariant
            0 <= i <= lines@.len(),
            lv == crate::ignore_rules::pv(lines@),
            r@.len() == 2 * i,
            crate::ignore_rules::pv(r@) == spec_exclude_args(lv.subrange(0, i as int)),
        decreases lines@.len() - i,
    {
        let ghost before = crate::ignore_rules::pv(r@);
        r.push(String::from_str("--exclude"));
        r.push(lines[i].clone());
        proof {
            assert(lv.subrange(0, i + 1).drop_last() =~= lv.subrange(0, i as int));
            assert(lv.subrange(0, i + 1).last() == lv[i as int]);
            assert(crate::ignore_rules::pv(r@) =~= before + seq!["--exclude"@, lv[i as int]]);
        }
        i += 1;
    }
    proof {
        assert(lv.subrange(0, lv.len() as int) =~= lv);
    }
    r
}

/// The argument list the snapshot CLI's backup invocation gets, in order:
/// JSON output, repository and password file, the lock retry window, the
/// base path, one `--exclude` per ignore line, the backup's UUID tag,
/// grouping by tags, and the download and upload rate limits. The numeric
/// values arrive already formatted.
pub fn restic_backup_args(
    repo: &str,
    password_file: &str,
    retry_lock: &str,
    base: &str,
    excludes: &Vec<String>,
    tag: &str,
    download_limit: &str,
    upload_limit: &str,
) -> (r: Vec<String>)
    ensures
        r@.len() == 17 + 2 * excludes@.len(),
        r@[0]@ == "--json"@,
        r@[1]@ == "--repo"@,
        r@[2]@ == repo@,
        r@[3]@ == "--password-file"@,
        r@[4]@ == password_file@,
        r@[5]@ == "--retry-lock"@,
        r@[6]@ == retry_lock@,
        r@[7]@ == "backup"@,
        r@[8]@ == base@,
        crate::ignore_rules::pv(r@).subrange(9, 9 + 2 * excludes@.len() as int)
            == spec_exclude_args(crate::ignore_rules::pv(excludes@)),
        ({
            let t = 9 + 2 * excludes@.len() as int;
            &&& r@[t]@ == "--tag"@
            &&& r@[t + 1]@ == tag@
            &&& r@[t + 2]@ == "--group-by"@
            &&& r@[t + 3]@ == "tags"@
            &&& r@[t + 4]@ == "--limit-download"@
            &&& r@[t + 5]@ == download_limit@
            &&& r@[t + 6]@ == "--limit-upload"@
            &&& r@[t + 7]@ == upload_limit@
        }),
{
    let mid = exclude_args(excludes);
    let ghost midv = mid@;
    let mut r: Vec<String> = Vec::new();
    r.push(String::from_str("--json"));
    r.push(String::from_str("--repo"));
    r.push(String::from_str(repo));
    r.push(String::from_str("--password-file"));
    r.push(String::from_str(password_file));
    r.push(String::from_str("--retry-lock"));
    r.push(String::from_str(retry_lock));
    r.push(String::from_str("backup"));
    r.push(String::from_str(base));
    let mut i: usize = 0;
    let ghost head = r@;
    while i < mid.len()
        invariant
            0 <= i <= mid@.len(),
            mid@ == midv,
            r@ == head + midv.subrange(0, i as int),
            head.len() == 9,
        decreases mid@.len() - i,
    {
        r.push(mid[i].clone());
        proof {
            assert(head + midv.subrange(0, i + 1) =~= (head + midv.subrange(0, i as int)).push(
                midv[i as int],
            ));
        }
        i += 1;
    }
    proof {
        assert(midv.subrange(0, midv.len() as int) =~= midv);
    }
    r.push(String::from_str("--tag"));
    r.push(String::from_str(tag));
    r.push(String::from_str("--group-by"));
    r.push(String::from_str("tags"));
    r.push(String::from_str("--limit-download"));
    r.push(String::from_str(download_limit));
    r.push(String::from_str("--limit-upload"));
    r.push(String::from_str(upload_limit));
    proof {
        assert(r@.subrange(9, 9 + 2 * excludes@.len() as int) =~= midv);
        assert(crate::ignore_rules::pv(r@).subrange(9, 9 + 2 * excludes@.len() as int)
            =~= crate::ignore_rules::pv(midv));
    }
    r
}

/// One record of the snapshot CLI's listing, reduced to plain values: its
/// first tag and its first path, where the record has them.
pub struct SnapshotRecord {
    pub tag: Option<String>,
    pub path: Option<String>,
}

pub open spec fn ov(o: Option<String>) -> Option<Seq<char>> {
    match o {
        Some(s) => Some(s@),
        Option::None => Option::None,
    }
}

/// What one listing record contributes to the backup registry: the tag
/// parsed as a UUID paired with the path, or nothing.
pub open spec fn spec_snapshot_entry(tag: Option<Seq<char>>, path: Option<Seq<char>>) -> Option<
    (Seq<char>, Seq<char>),
> {
    match (tag, path) {
        (Some(t), Some(p)) => match spec_uuid_canon(t) {
            Some(u) => Some((u, p)),
            Option::None => Option::None,
        },
        _ => Option::None,
    }
}

pub open spec fn spec_collect_snapshots(rs: Seq<SnapshotRecord>) -> Seq<(Seq<char>, Seq<char>)>
    decreases rs.len(),
{
    if rs.len() == 0 {
        Seq::empty()
    } else {
        spec_collect_snapshots(rs.drop_last()) + match spec_snapshot_entry(
            ov(rs.last().tag),
            ov(rs.last().path),
        ) {
            Some(e) => seq![e],
            Option::None => Seq::empty(),
        }
    }
}

/// Builds the backup registry from the snapshot CLI's listing: each
/// record whose first tag is a UUID maps that UUID, in canonical form, to
/// the record's first path; the rest are dropped.
pub fn collect_snapshots(records: &Vec<SnapshotRecord>) -> (r: Vec<(String, String)>)
    ensures
        r@.map_values(|e: (String, String)| (e.0@, e.1@)) == spec_collect_snapshots(records@),
{
    let mut r: Vec<(String, String)> = Vec::new();
    let mut i: usize = 0;
    proof {
        assert(records@.subrange(0, 0).len() == 0);
        assert(r@.map_values(|e: (String, String)| (e.0@, e.1@)) =~= spec_collect_snapshots(
            records@.subrange(0, 0),
        ));
    }
    while i < records.len()
        invariant
            0 <= i <= records@.len(),
            r@.map_values(|e: (String, String)| (e.0@, e.1@)) == spec_collect_snapshots(
                records@.subrange(0, i as int),
            ),
        decreases records@.len() - i,
    {
        let ghost prev = records@.subrange(0, i as int);
        proof {
            assert(records@.subrange(0, i + 1).drop_last() =~= prev);
            assert(records@.subrange(0, i + 1).last() == records@[i as int]);
        }
        let rec = &records[i];
        if let (Some(tag), Some(path)) = (&rec.tag, &rec.path) {
            match parse_uuid(tag.as_str()) {
                Some(u) => {
                    r.push((u, path.clone()));
                    proof {
                        assert(r@.map_values(|e: (String, String)| (e.0@, e.1@))
                            =~= spec_collect_snapshots(prev) + seq![
                            (spec_uuid_canon(rec.tag->Some_0@)->Some_0, rec.path->Some_0@),
                        ]);
                    }
                },
                Option::None => {
                    proof {
                        assert(r@.map_values(|e: (String, String)| (e.0@, e.1@))
                            =~= spec_collect_snapshots(prev) + Seq::<(Seq<char>, Seq<char>)>::empty());
                    }
                },
            }
        } else {
            proof {
                assert(r@.map_values(|e: (String, String)| (e.0@, e.1@)) =~= spec_collect_snapshots(
                    prev,
                ) + Seq::<(Seq<char>, Seq<char>)>::empty());
            }
        }
        i += 1;
    }
    proof {
        assert(records@.subrange(0, records@.len() as int) =~= records@);
    }
    r
}

/// The UUID a local backup file name names, extensions trimmed in the
/// listing's order.
pub open spec fn spec_uuid_of_name(name: Seq<char>) -> Option<Seq<char>> {
    spec_uuid_canon(
        spec_trim_end_all(
            spec_trim_end_all(
                spec_trim_end_all(spec_trim_end_all(name, ".tar.gz"@), ".tar.zst"@),
                ".tar"@,
            ),
            ".zip"@,
        ),
    )
}

/// The backup registry a directory listing yields: each file name that
/// names a UUID contributes it once, in first-appearance order — a backup
/// present in several formats is still one backup.
pub open spec fn spec_backup_listing(names: Seq<Seq<char>>) -> Seq<Seq<char>>
    decreases names.len(),
{
    if names.len() == 0 {
        Seq::empty()
    } else {
        let prev = spec_backup_listing(names.drop_last());
        match spec_uuid_of_name(names.last()) {
            Some(u) => if prev.contains(u) {
                prev
            } else {
                prev.push(u)
            },
            Option::None => prev,
        }
    }
}

fn contains_string(v: &Vec<String>, s: &String) -> (r: bool)
    ensures
        r == crate::ignore_rules::pv(v@).contains(s@),
{
    let mut j: usize = 0;
    while j < v.len()
        invariant
            0 <= j <= v@.len(),
            forall|w: int| 0 <= w < j ==> crate::ignore_rules::pv(v@)[w] != s@,
        decreases v@.len() - j,
    {
        if v[j].eq(s) {
            proof {
                assert(crate::ignore_rules::pv(v@)[j as int] == s@);
            }
            return true;
        }
        j += 1;
    }
    proof {
        assert(!crate::ignore_rules::pv(v@).contains(s@)) by {
            if crate::ignore_rules::pv(v@).contains(s@) {
                let w = choose|w: int|
                    0 <= w < crate::ignore_rules::pv(v@).len() && crate::ignore_rules::pv(v@)[w]
                        == s@;
            }
        };
    }
    false
}

/// Lists the backups a directory's file names announce: one canonical
/// UUID per backup, however many of its formats sit on disk.
pub fn list_backup_uuids(names: &Vec<String>) -> (r: Vec<String>)
    ensures
        crate::ignore_rules::pv(r@) == spec_backup_listing(crate::ignore_rules::pv(names@)),
{
    let ghost nv = crate::ignore_rules::pv(names@);
    let mut r: Vec<String> = Vec::new();
    let mut i: usize = 0;
    proof {
        assert(nv.subrange(0, 0).len() == 0);
        assert(crate::ignore_rules::pv(r@) =~= spec_backup_listing(nv.subrange(0, 0)));
    }
    while i < names.len()
        invariant
            0 <= i <= names@.len(),
            nv == crate::ignore_rules::pv(names@),
            crate::ignore_rules::pv(r@) == spec_backup_listing(nv.subrange(0, i as int)),
        decreases names@.len() - i,
    {
        proof {
            assert(nv.subrange(0, i + 1).drop_last() =~= nv.subrange(0, i as int));
            assert(nv.subrange(0, i + 1).last() == nv[i as int]);
        }
        let ghost before = crate::ignore_rules::pv(r@);
        match backup_uuid_of_file_name(names[i].as_str()) {
            Some(u) => {
                if !contains_string(&r, &u) {
                    r.push(u);
                    proof {
                        assert(crate::ignore_rules::pv(r@) =~= before.push(
                            spec_uuid_of_name(nv[i as int])->Some_0,
                        ));
                    }
                }
            },
            Option::None => {},
        }
        i += 1;
    }
    proof {
        assert(nv.subrange(0, nv.len() as int) =~= nv);
    }
    r
}

} // verus!

