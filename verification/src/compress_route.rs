//! The file-compression endpoint's request shape and its pure decisions:
//! which archive format a request names, the compression behind it, and
//! the default archive name when the request gives none.

use vstd::prelude::*;
use vstd::string::StringExecFns;
use crate::archive::CompressionType;

verus! {

/// The archive formats the compression endpoint accepts.
#[derive(Clone, Copy, PartialEq, Eq, Structural, Debug)]
pub enum ArchiveFormat {
    Tar,
    TarGz,
    TarXz,
    TarBz2,
    TarLz4,
    TarZstd,
    Zip,
}

impl Default for ArchiveFormat {
    fn default() -> (r: Self)
        ensures
            r == ArchiveFormat::TarGz,
    {
        ArchiveFormat::TarGz
    }
}

/// The compression endpoint's request body.
pub struct Payload {
    pub format: ArchiveFormat,
    pub name: Option<String>,
    pub root: String,
    pub files: Vec<String>,
}

impl ArchiveFormat {
    /// The extension the default archive name carries.
    pub fn extension(&self) -> (r: &'static str)
        ensures
            match self {
                ArchiveFormat::Tar => r@ == "tar"@,
                ArchiveFormat::TarGz => r@ == "tar.gz"@,
                ArchiveFormat::TarXz => r@ == "tar.xz"@,
                ArchiveFormat::TarBz2 => r@ == "tar.bz2"@,
                ArchiveFormat::TarLz4 => r@ == "tar.lz4"@,
                ArchiveFormat::TarZstd => r@ == "tar.zst"@,
                ArchiveFormat::Zip => r@ == "zip"@,
            },
    {
        match self {
            ArchiveFormat::Tar => "tar",
            ArchiveFormat::TarGz => "tar.gz",
            ArchiveFormat::TarXz => "tar.xz",
            ArchiveFormat::TarBz2 => "tar.bz2",
            ArchiveFormat::TarLz4 => "tar.lz4",
            ArchiveFormat::TarZstd => "tar.zst",
            ArchiveFormat::Zip => "zip",
        }
    }

    /// The compression a tar-family format applies; zip archives go
    /// through the zip writer instead and get none here.
    pub fn compression(&self) -> (r: Option<CompressionType>)
        ensures
            r == (match self {
                ArchiveFormat::Tar => Some(CompressionType::Plain),
                ArchiveFormat::TarGz => Some(CompressionType::Gz),
                ArchiveFormat::TarXz => Some(CompressionType::Xz),
                ArchiveFormat::TarBz2 => Some(CompressionType::Bz2),
                ArchiveFormat::TarLz4 => Some(CompressionType::Lz4),
                ArchiveFormat::TarZstd => Some(CompressionType::Zstd),
                ArchiveFormat::Zip => Option::<CompressionType>::None,
            }),
    {
        match self {
            ArchiveFormat::Tar => Some(CompressionType::Plain),
            ArchiveFormat::TarGz => Some(CompressionType::Gz),
            ArchiveFormat::TarXz => Some(CompressionType::Xz),
            ArchiveFormat::TarBz2 => Some(CompressionType::Bz2),
            ArchiveFormat::TarLz4 => Some(CompressionType::Lz4),
            ArchiveFormat::TarZstd => Some(CompressionType::Zstd),
            ArchiveFormat::Zip => Option::None,
        }
    }
}

/// The name a request without one gets: `archive-<timestamp>.<extension>`,
/// the timestamp already formatted by the caller's clock.
pub fn default_archive_name(timestamp: &str, format: ArchiveFormat) -> (r: String)
    ensures
        ({
            let ext = match format {
                ArchiveFormat::Tar => "tar"@,
                ArchiveFormat::TarGz => "tar.gz"@,
                ArchiveFormat::TarXz => "tar.xz"@,
                ArchiveFormat::TarBz2 => "tar.bz2"@,
                ArchiveFormat::TarLz4 => "tar.lz4"@,
                ArchiveFormat::TarZstd => "tar.zst"@,
                ArchiveFormat::Zip => "zip"@,
            };
            r@ == "archive-"@ + timestamp@ + "."@ + ext
        }),
{
    let mut s = String::new();
    s.append("archive-");
    s.append(timestamp);
    s.append(".");
    s.append(format.extension());
    s
}

} // verus!
