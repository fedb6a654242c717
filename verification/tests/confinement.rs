use wings_core::ignore_rules::IgnoreRules;
use wings_core::vfs::{ConfinedFs, FsError, NodeKind};

fn path(parts: &[&str]) -> Vec<String> {
    parts.iter().map(|s| s.to_string()).collect()
}

fn no_rules() -> IgnoreRules {
    IgnoreRules::new(Vec::new())
}

#[test]
fn symlink_escape_is_not_found() {
    let mut fs = ConfinedFs::new(0, no_rules());
    // base/escape -> /etc (absolute target)
    fs.symlink(&path(&["escape"]), true, path(&["etc"])).unwrap();
    let r = fs.read(&path(&["escape", "passwd"]));
    assert!(matches!(r, Err(FsError::NotFound)));
    let m = fs.metadata(&path(&["escape", "passwd"]));
    assert!(matches!(m, Err(FsError::NotFound)));
    // the symlink itself still stats as a symlink
    let sm = fs.symlink_metadata(&path(&["escape"])).unwrap();
    assert_eq!(sm.kind, NodeKind::Symlink);
}

#[test]
fn dotdot_escape_is_not_found() {
    let mut fs = ConfinedFs::new(0, no_rules());
    fs.put_dir(&path(&["d"]), 0o755, 0).unwrap();
    fs.symlink(&path(&["d", "up"]), false, path(&["..", "..", "secret"])).unwrap();
    let r = fs.read(&path(&["d", "up", "x"]));
    assert!(matches!(r, Err(FsError::NotFound)));
    assert!(matches!(fs.canonicalize(&path(&["d", "up", "x"])), Err(FsError::NotFound)));
}

#[test]
fn symlink_inside_base_resolves() {
    let mut fs = ConfinedFs::new(0, no_rules());
    fs.put_dir(&path(&["real"]), 0o755, 0).unwrap();
    fs.create(&path(&["real", "f.txt"]), b"data".to_vec(), 0o644, 7).unwrap();
    fs.symlink(&path(&["alias"]), false, path(&["real"])).unwrap();
    let d = fs.read(&path(&["alias", "f.txt"])).unwrap();
    assert_eq!(d, b"data".to_vec());
    let c = fs.canonicalize(&path(&["alias", "f.txt"])).unwrap();
    assert_eq!(c, path(&["real", "f.txt"]));
}

#[test]
fn ignored_write_refused_read_allowed() {
    let rules = IgnoreRules::new(vec!["*.log".to_string()]);
    let mut fs = ConfinedFs::new(0, rules);
    let r = fs.create(&path(&["app.log"]), b"x".to_vec(), 0o644, 0);
    assert!(matches!(r, Err(FsError::Ignored)));
    // an existing ignored file (placed by a rename, which ignore rules do
    // not block) still reads fine
    fs.create(&path(&["old.txt"]), b"kept".to_vec(), 0o644, 0).unwrap();
    fs.rename(&path(&["old.txt"]), &path(&["old.log"])).unwrap();
    let d = fs.read(&path(&["old.log"])).unwrap();
    assert_eq!(d, b"kept".to_vec());
}

#[test]
fn quota_exceeded_keeps_usage() {
    let mib: u64 = 1024 * 1024;
    let mut fs = ConfinedFs::new(mib, no_rules());
    let first = vec![0u8; 512 * 1024];
    fs.create(&path(&["a.bin"]), first, 0o644, 0).unwrap();
    assert_eq!(fs.limiter_usage(), 512 * 1024);
    // second write of 524 289 bytes arrives chunk by chunk, as the
    // engine's writer flushes: the chunks that fit are kept, the first one
    // past the limit fails
    fs.create(&path(&["b.bin"]), Vec::new(), 0o644, 0).unwrap();
    let mut written: u64 = 0;
    let total: u64 = 512 * 1024 + 1;
    let mut failed = false;
    while written < total {
        let n = std::cmp::min(8192, total - written) as usize;
        match fs.append(&path(&["b.bin"]), vec![0u8; n]) {
            Ok(()) => written += n as u64,
            Err(e) => {
                assert!(matches!(e, FsError::QuotaExceeded));
                failed = true;
                break;
            }
        }
    }
    assert!(failed);
    assert_eq!(fs.limiter_usage(), 1_048_576);
}

#[test]
fn deletes_decrement_usage() {
    let mut fs = ConfinedFs::new(0, no_rules());
    fs.create(&path(&["f"]), vec![1, 2, 3], 0o644, 0).unwrap();
    assert_eq!(fs.limiter_usage(), 3);
    fs.remove(&path(&["f"])).unwrap();
    assert_eq!(fs.limiter_usage(), 0);
    assert!(matches!(fs.read(&path(&["f"])), Err(FsError::NotFound)));
}

#[test]
fn rename_moves_and_frees_name() {
    let mut fs = ConfinedFs::new(0, no_rules());
    fs.put_dir(&path(&["d"]), 0o755, 0).unwrap();
    fs.create(&path(&["x"]), b"v".to_vec(), 0o600, 5).unwrap();
    fs.rename(&path(&["x"]), &path(&["d", "y"])).unwrap();
    assert!(matches!(fs.read(&path(&["x"])), Err(FsError::NotFound)));
    assert_eq!(fs.read(&path(&["d", "y"])).unwrap(), b"v".to_vec());
    let m = fs.metadata(&path(&["d", "y"])).unwrap();
    assert_eq!(m.mode, 0o600);
    assert_eq!(m.mtime, 5);
}

#[test]
fn read_link_is_verbatim() {
    let mut fs = ConfinedFs::new(0, no_rules());
    fs.symlink(&path(&["l"]), false, path(&["a", "b"])).unwrap();
    let t = fs.read_link_contents(&path(&["l"])).unwrap();
    assert!(!t.absolute);
    assert_eq!(t.components, path(&["a", "b"]));
}

#[test]
fn read_dir_lists_children() {
    let mut fs = ConfinedFs::new(0, no_rules());
    fs.put_dir(&path(&["d"]), 0o755, 0).unwrap();
    fs.create(&path(&["d", "a"]), b"1".to_vec(), 0o644, 0).unwrap();
    fs.create(&path(&["d", "b"]), b"2".to_vec(), 0o644, 0).unwrap();
    fs.create(&path(&["top"]), b"3".to_vec(), 0o644, 0).unwrap();
    assert_eq!(fs.read_dir(&path(&["d"])).unwrap(), vec!["a", "b"]);
    assert_eq!(fs.read_dir(&path(&[])).unwrap(), vec!["d", "top"]);
    assert!(fs.read_dir(&path(&["top"])).is_err());
}
