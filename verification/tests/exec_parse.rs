use wings_core::archive::CompressionType;
use wings_core::compress_route::{default_archive_name, ArchiveFormat};
use wings_core::exec_cmd::{
    compression_for_extension, parse_exec_command, required_permission, strip_backslashes,
    ExecCommand, Permission,
};
use wings_core::ignore_rules::{join_path, IgnoreRules};
use wings_core::remote::AuthenticationType;
use wings_core::rename_route::rename_attempted;

fn toks(parts: &[&str]) -> Vec<String> {
    parts.iter().map(|s| s.to_string()).collect()
}

#[test]
fn tar_extract_command() {
    let cmd = parse_exec_command(&toks(&[
        "tar", "-xzpPf", "my", "archive.tar.gz", "-C", "dest", "dir",
    ]));
    match cmd {
        ExecCommand::TarExtract { archive, destination } => {
            assert_eq!(archive, toks(&["my", "archive.tar.gz"]));
            assert_eq!(destination, toks(&["dest", "dir"]));
        }
        _ => panic!("expected an extraction"),
    }
}

#[test]
fn tar_create_command_groups_by_backslash() {
    let cmd = parse_exec_command(&toks(&[
        "cd", "/srv;", "tar", "-czf", "out.tar.gz", "file1", "My\\", "Docs",
    ]));
    match cmd {
        ExecCommand::TarCreate { base, destination, files } => {
            // the shell's trailing semicolon is dropped from the base
            assert_eq!(base, "/srv");
            assert_eq!(destination, toks(&["out.tar.gz"]));
            assert_eq!(files.len(), 2);
            assert_eq!(files[0], toks(&["file1"]));
            assert_eq!(files[1], toks(&["My\\", "Docs"]));
        }
        _ => panic!("expected a creation"),
    }
}

#[test]
fn dash_c_last_extracts_into_base() {
    // `-C` with nothing after it still parses as an extraction, with an
    // empty destination: the archive lands in the base
    let cmd = parse_exec_command(&toks(&["tar", "-xzpPf", "a.tar", "-C"]));
    match cmd {
        ExecCommand::TarExtract { archive, destination } => {
            assert_eq!(archive, toks(&["a.tar"]));
            assert!(destination.is_empty());
        }
        _ => panic!("expected an extraction"),
    }
}

#[test]
fn anything_else_goes_to_console() {
    assert!(matches!(parse_exec_command(&toks(&["say", "hello"])), ExecCommand::Other));
    assert!(matches!(parse_exec_command(&toks(&["tar", "-tf", "x"])), ExecCommand::Other));
    assert!(matches!(parse_exec_command(&toks(&[])), ExecCommand::Other));
}

#[test]
fn permissions_per_command() {
    let ex = parse_exec_command(&toks(&["tar", "-xzpPf", "a.tar", "-C", "d"]));
    assert_eq!(required_permission(&ex), Permission::FileCreate);
    let cr = parse_exec_command(&toks(&["cd", "b", "tar", "-czf", "o.tar", "f"]));
    assert_eq!(required_permission(&cr), Permission::FileArchive);
    assert_eq!(
        required_permission(&ExecCommand::Other),
        Permission::ControlConsole
    );
}

#[test]
fn extension_picks_compression() {
    assert_eq!(compression_for_extension("tar"), Some(CompressionType::Plain));
    assert_eq!(compression_for_extension("gz"), Some(CompressionType::Gz));
    assert_eq!(compression_for_extension("xz"), Some(CompressionType::Xz));
    assert_eq!(compression_for_extension("bz2"), Some(CompressionType::Bz2));
    assert_eq!(compression_for_extension("lz4"), Some(CompressionType::Lz4));
    assert_eq!(compression_for_extension("zst"), Some(CompressionType::Zstd));
    assert_eq!(compression_for_extension("rar"), None);
}

#[test]
fn backslashes_are_stripped() {
    assert_eq!(strip_backslashes("My\\"), "My");
    assert_eq!(strip_backslashes("a\\b\\c"), "abc");
    assert_eq!(strip_backslashes("plain"), "plain");
}

#[test]
fn compress_route_formats() {
    assert_eq!(ArchiveFormat::TarGz.extension(), "tar.gz");
    assert_eq!(ArchiveFormat::Zip.extension(), "zip");
    assert_eq!(ArchiveFormat::Tar.compression(), Some(CompressionType::Plain));
    assert_eq!(ArchiveFormat::TarZstd.compression(), Some(CompressionType::Zstd));
    assert_eq!(ArchiveFormat::Zip.compression(), None);
    assert!(matches!(ArchiveFormat::default(), ArchiveFormat::TarGz));
    assert_eq!(
        default_archive_name("2024-01-02T030405+0000", ArchiveFormat::TarGz),
        "archive-2024-01-02T030405+0000.tar.gz"
    );
}

#[test]
fn ignore_rules_match_globs() {
    let rules = IgnoreRules::new(vec!["*.log".to_string(), "cache".to_string()]);
    assert!(rules.matches("app.log", false));
    assert!(!rules.matches("app.txt", false));
    assert!(rules.matches("cache", true));
    assert_eq!(join_path(&toks(&["a", "b", "c"])), "a/b/c");
    assert_eq!(join_path(&toks(&[])), "");
}

#[test]
fn auth_labels() {
    assert_eq!(AuthenticationType::Password.label(), "password");
    assert_eq!(AuthenticationType::PublicKey.label(), "public_key");
}

#[test]
fn rename_skips_ignored_targets_not_sources() {
    // an ignored source is the one permitted write: renaming out proceeds
    assert!(rename_attempted(false, false, false, false, false, false));
    // an ignored destination is refused
    assert!(!rename_attempted(false, false, false, false, false, true));
    assert!(!rename_attempted(false, false, true, false, false, false));
    assert!(!rename_attempted(false, false, false, false, true, false));
}
