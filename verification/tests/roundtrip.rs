use wings_core::entries::{
    extract_entries, tar_round_trip, tar_round_trip_from, zip_round_trip, zip_round_trip_from,
    EntryKind,
};
use wings_core::ignore_rules::IgnoreRules;
use wings_core::vfs::{ConfinedFs, NodeKind};

fn path(parts: &[&str]) -> Vec<String> {
    parts.iter().map(|s| s.to_string()).collect()
}

fn no_rules() -> IgnoreRules {
    IgnoreRules::new(Vec::new())
}

#[test]
fn zip_round_trip_scenario() {
    // 2024-01-02T03:04:05Z as seconds since the epoch
    let mtime: u64 = 1_704_164_645;
    let mut src = ConfinedFs::new(0, no_rules());
    src.create(&path(&["a.txt"]), b"hello".to_vec(), 0o600, mtime).unwrap();
    src.put_dir(&path(&["dir"]), 0o750, mtime).unwrap();
    src.symlink(&path(&["link"]), false, path(&["a.txt"])).unwrap();

    let mut dest = ConfinedFs::new(0, no_rules());
    zip_round_trip(&src, &mut dest);

    assert_eq!(dest.read(&path(&["a.txt"])).unwrap(), b"hello".to_vec());
    let fm = dest.metadata(&path(&["a.txt"])).unwrap();
    assert_eq!(fm.mode, 0o600);
    // zip keeps times at two-second granularity
    assert_eq!(fm.mtime, 1_704_164_644);
    assert!(fm.mtime.abs_diff(mtime) <= 2);
    let dm = dest.metadata(&path(&["dir"])).unwrap();
    assert_eq!(dm.kind, NodeKind::Dir);
    assert_eq!(dm.mode, 0o750);
    let link = dest.read_link_contents(&path(&["link"])).unwrap();
    assert!(!link.absolute);
    assert_eq!(link.components, path(&["a.txt"]));
}

#[test]
fn tar_round_trip_preserves_everything() {
    let mut src = ConfinedFs::new(0, no_rules());
    src.put_dir(&path(&["d"]), 0o701, 11).unwrap();
    src.create(&path(&["d", "f.bin"]), vec![0, 255, 7], 0o640, 1234567).unwrap();
    src.symlink(&path(&["d", "l"]), true, path(&["etc", "hosts"])).unwrap();

    let mut dest = ConfinedFs::new(0, no_rules());
    tar_round_trip(&src, &mut dest);

    let dm = dest.metadata(&path(&["d"])).unwrap();
    assert_eq!((dm.mode, dm.mtime), (0o701, 11));
    let fm = dest.metadata(&path(&["d", "f.bin"])).unwrap();
    assert_eq!((fm.mode, fm.mtime, fm.size), (0o640, 1234567, 3));
    assert_eq!(dest.read(&path(&["d", "f.bin"])).unwrap(), vec![0, 255, 7]);
    let l = dest.read_link_contents(&path(&["d", "l"])).unwrap();
    assert!(l.absolute);
    assert_eq!(l.components, path(&["etc", "hosts"]));
}

#[test]
fn tar_round_trip_filters_ignored() {
    let rules = || IgnoreRules::new(vec!["*.log".to_string()]);
    let mut src = ConfinedFs::new(0, rules());
    src.create(&path(&["keep.txt"]), b"k".to_vec(), 0o644, 0).unwrap();
    src.create(&path(&["drop.tmp"]), b"d".to_vec(), 0o644, 0).unwrap();
    src.rename(&path(&["drop.tmp"]), &path(&["drop.log"])).unwrap();

    let mut dest = ConfinedFs::new(0, rules());
    tar_round_trip(&src, &mut dest);

    assert_eq!(dest.read(&path(&["keep.txt"])).unwrap(), b"k".to_vec());
    assert!(dest.read(&path(&["drop.log"])).is_err());
}

#[test]
fn ignored_directory_subtree_is_pruned() {
    let rules = || IgnoreRules::new(vec!["cache".to_string()]);
    // a directory matching the rules disappears with everything below it,
    // even though its child's own name matches no rule
    let mut src = ConfinedFs::new(0, rules());
    src.put_dir(&path(&["tmp.d"]), 0o755, 0).unwrap();
    src.rename(&path(&["tmp.d"]), &path(&["cache"])).unwrap();
    src.create(&path(&["cache", "blob"]), b"z".to_vec(), 0o644, 0).unwrap();
    src.create(&path(&["top"]), b"t".to_vec(), 0o644, 0).unwrap();
    let entries = src.tar_entries();
    assert_eq!(entries.len(), 1);
    assert_eq!(entries[0].path, path(&["top"]));
}

#[test]
fn extraction_skips_absolute_and_other_entries() {
    let mut dest = ConfinedFs::new(0, no_rules());
    let listing = vec![
        wings_core::entries::ArchiveEntry {
            absolute: true,
            path: path(&["etc"]),
            kind: EntryKind::Dir { mode: 0o755, mtime: 0 },
        },
        wings_core::entries::ArchiveEntry {
            absolute: false,
            path: path(&["dev0"]),
            kind: EntryKind::Other,
        },
        wings_core::entries::ArchiveEntry {
            absolute: false,
            path: path(&["ok"]),
            kind: EntryKind::File { mode: 0o644, mtime: 1, data: b"y".to_vec() },
        },
    ];
    extract_entries(&mut dest, &listing, false);
    assert!(dest.read(&path(&["etc"])).is_err());
    assert!(dest.metadata(&path(&["dev0"])).is_err());
    assert_eq!(dest.read(&path(&["ok"])).unwrap(), b"y".to_vec());
}

#[test]
fn zip_extraction_skips_oversize_symlink() {
    let mut dest = ConfinedFs::new(0, no_rules());
    let long = "x".repeat(3000);
    let listing = vec![
        wings_core::entries::ArchiveEntry {
            absolute: false,
            path: path(&["big"]),
            kind: EntryKind::Symlink { target_abs: false, target: vec![long] },
        },
        wings_core::entries::ArchiveEntry {
            absolute: false,
            path: path(&["small"]),
            kind: EntryKind::Symlink { target_abs: false, target: path(&["t"]) },
        },
    ];
    extract_entries(&mut dest, &listing, true);
    assert!(dest.symlink_metadata(&path(&["big"])).is_err());
    assert!(dest.symlink_metadata(&path(&["small"])).is_ok());
}

#[test]
fn tar_round_trip_with_selected_sources() {
    let mut src = ConfinedFs::new(0, no_rules());
    src.put_dir(&path(&["worlds"]), 0o755, 3).unwrap();
    src.create(&path(&["worlds", "overworld"]), b"w".to_vec(), 0o640, 4).unwrap();
    src.create(&path(&["server.jar"]), b"jar".to_vec(), 0o644, 5).unwrap();
    src.create(&path(&["untouched"]), b"x".to_vec(), 0o644, 6).unwrap();

    let sources = vec![path(&["worlds"]), path(&["server.jar"])];
    let mut dest = ConfinedFs::new(0, no_rules());
    tar_round_trip_from(&src, &mut dest, &sources);

    assert_eq!(dest.read(&path(&["worlds", "overworld"])).unwrap(), b"w".to_vec());
    let dm = dest.metadata(&path(&["worlds"])).unwrap();
    assert_eq!((dm.mode, dm.mtime), (0o755, 3));
    assert_eq!(dest.read(&path(&["server.jar"])).unwrap(), b"jar".to_vec());
    assert!(dest.read(&path(&["untouched"])).is_err());
}

#[test]
fn zip_round_trip_with_selected_sources() {
    let mut src = ConfinedFs::new(0, no_rules());
    src.create(&path(&["a.txt"]), b"sel".to_vec(), 0o600, 9).unwrap();
    src.create(&path(&["b.txt"]), b"not".to_vec(), 0o600, 9).unwrap();

    let sources = vec![path(&["a.txt"])];
    let mut dest = ConfinedFs::new(0, no_rules());
    zip_round_trip_from(&src, &mut dest, &sources);

    assert_eq!(dest.read(&path(&["a.txt"])).unwrap(), b"sel".to_vec());
    assert_eq!(dest.metadata(&path(&["a.txt"])).unwrap().mtime, 8);
    assert!(dest.read(&path(&["b.txt"])).is_err());
}
