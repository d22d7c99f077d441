use os::inode::{LinkState, OSInode, OpenFlags, OpenPlan};

fn plan_name(p: &OpenPlan) -> Option<String> {
    match p {
        OpenPlan::Denied => None,
        OpenPlan::Open { canonical, .. } => Some(canonical.clone()),
        OpenPlan::Create { canonical, .. } => Some(canonical.clone()),
    }
}

#[test]
fn read_write_of_flags() {
    assert_eq!(OpenFlags::rdonly().read_write(), (true, false));
    assert_eq!(OpenFlags::wronly().read_write(), (false, true));
    assert_eq!(OpenFlags::rdwr().read_write(), (true, true));
    assert_eq!(OpenFlags { bits: 0x201 }.read_write(), (false, true));
    assert_eq!(OpenFlags { bits: 0x202 }.read_write(), (true, true));
    assert_eq!(OpenFlags::create().read_write(), (true, true));
}

#[test]
fn flags_from_bits() {
    assert_eq!(OpenFlags::from_bits(0x603).map(|f| f.bits()), Some(0x603));
    assert!(OpenFlags::from_bits(0x4).is_none());
    assert_eq!(OpenFlags::from_bits_truncate(0xffff).bits(), 0x603);
    assert!(OpenFlags::create().contains(OpenFlags::create()));
    assert!(OpenFlags::wronly().contains(OpenFlags::rdonly()));
    assert!(!OpenFlags::rdwr().contains(OpenFlags::wronly()));
    assert!(OpenFlags::rdonly().is_empty());
}

#[test]
fn os_inode_cursor() {
    let mut f = OSInode::new(true, false, String::from("a"));
    assert!(f.readable());
    assert!(!f.writable());
    assert_eq!(f.offset(), 0);
    f.advance(512);
    f.advance(3);
    assert_eq!(f.offset(), 515);
    assert_eq!(f.canonical_name().as_str(), "a");
}

#[test]
fn resolve_without_aliases_is_identity() {
    let s = LinkState::new();
    assert_eq!(s.resolve_name("file").as_str(), "file");
    assert_eq!(s.inode_nlink("file"), 1);
}

#[test]
fn link_names_the_same_file() {
    let mut s = LinkState::new();
    assert_eq!(s.link_file("a", "b", true, false), 0);
    assert_eq!(s.resolve_name("b").as_str(), "a");
    assert_eq!(s.resolve_name("a").as_str(), "a");
    assert_eq!(s.inode_nlink("a"), 2);
    // Linking through the alias reaches the canonical file.
    assert_eq!(s.link_file("b", "c", true, false), 0);
    assert_eq!(s.resolve_name("c").as_str(), "a");
    assert_eq!(s.inode_nlink("a"), 3);
}

#[test]
fn link_refusals() {
    let mut s = LinkState::new();
    // Old file missing.
    assert_eq!(s.link_file("a", "b", false, false), -1);
    // New name exists in the directory.
    assert_eq!(s.link_file("a", "b", true, true), -1);
    assert_eq!(s.link_file("a", "b", true, false), 0);
    // New name is an alias already.
    assert_eq!(s.link_file("a", "b", true, false), -1);
    // New name is the canonical name itself.
    assert_eq!(s.link_file("b", "a", true, false), -1);
    // Canonical name hidden.
    assert_eq!(s.unlink_file("a", true), 0);
    assert_eq!(s.link_file("b", "z", true, false), -1);
    // New name hidden.
    assert_eq!(s.link_file("q", "a", true, false), -1);
    assert_eq!(s.inode_nlink("a"), 1);
}

#[test]
fn unlink_alias_undoes_link() {
    let mut s = LinkState::new();
    assert_eq!(s.link_file("a", "b", true, false), 0);
    assert_eq!(s.unlink_file("b", false), 0);
    assert_eq!(s.resolve_name("b").as_str(), "b");
    assert_eq!(s.inode_nlink("a"), 1);
    // Unlinking the alias again: it is no alias and not in the directory.
    assert_eq!(s.unlink_file("b", false), -1);
}

#[test]
fn unlink_hides_the_canonical_name() {
    let mut s = LinkState::new();
    assert_eq!(s.link_file("a", "b", true, false), 0);
    assert_eq!(s.unlink_file("a", true), 0);
    assert_eq!(s.inode_nlink("a"), 1);
    // Second unlink of a hidden name fails.
    assert_eq!(s.unlink_file("a", true), -1);
    // The name itself is refused ...
    let p = s.open_file("a", OpenFlags::rdonly(), true);
    assert!(matches!(p, OpenPlan::Denied));
    // ... but the alias still opens the file.
    let p = s.open_file("b", OpenFlags::rdonly(), true);
    assert_eq!(plan_name(&p).as_deref(), Some("a"));
}

#[test]
fn unlink_missing_name_fails() {
    let mut s = LinkState::new();
    assert_eq!(s.unlink_file("nothing", false), -1);
}

#[test]
fn open_plans() {
    let mut s = LinkState::new();
    // Missing file without CREATE.
    assert!(matches!(s.open_file("a", OpenFlags::rdonly(), false), OpenPlan::Denied));
    // Missing file with CREATE.
    match s.open_file("a", OpenFlags { bits: 0x201 }, false) {
        OpenPlan::Create { canonical, readable, writable } => {
            assert_eq!(canonical.as_str(), "a");
            assert!(!readable);
            assert!(writable);
            s.file_created(&canonical);
        }
        _ => panic!("expected a plan to create"),
    }
    assert_eq!(s.inode_nlink("a"), 1);
    // Existing file with TRUNC.
    match s.open_file("a", OpenFlags { bits: 0x402 }, true) {
        OpenPlan::Open { canonical, readable, writable, truncate } => {
            assert_eq!(canonical.as_str(), "a");
            assert!(readable && writable && truncate);
        }
        _ => panic!("expected a plan to open"),
    }
    // Existing file plain.
    match s.open_file("a", OpenFlags::rdonly(), true) {
        OpenPlan::Open { truncate, readable, writable, .. } => {
            assert!(!truncate);
            assert!(readable && !writable);
        }
        _ => panic!("expected a plan to open"),
    }
    // Existing file with CREATE empties it.
    match s.open_file("a", OpenFlags::create(), true) {
        OpenPlan::Open { truncate, .. } => assert!(truncate),
        _ => panic!("expected a plan to open"),
    }
}

#[test]
fn create_lifts_hiding() {
    let mut s = LinkState::new();
    assert_eq!(s.unlink_file("a", true), 0);
    assert!(matches!(s.open_file("a", OpenFlags::rdonly(), true), OpenPlan::Denied));
    assert!(matches!(s.open_file("a", OpenFlags::create(), true), OpenPlan::Open { .. }));
    assert!(matches!(s.open_file("a", OpenFlags::rdonly(), true), OpenPlan::Open { .. }));
    assert_eq!(s.unlink_file("a", true), 0);
}

#[test]
fn file_created_resets_count() {
    let mut s = LinkState::new();
    assert_eq!(s.link_file("a", "b", true, false), 0);
    assert_eq!(s.inode_nlink("a"), 2);
    s.file_created(&String::from("a"));
    assert_eq!(s.inode_nlink("a"), 1);
}

#[test]
fn nlink_never_below_one() {
    let mut s = LinkState::new();
    assert_eq!(s.link_file("a", "b", true, false), 0);
    assert_eq!(s.link_file("a", "c", true, false), 0);
    assert_eq!(s.inode_nlink("a"), 3);
    assert_eq!(s.unlink_file("b", false), 0);
    assert_eq!(s.unlink_file("c", false), 0);
    assert_eq!(s.unlink_file("a", true), 0);
    assert_eq!(s.inode_nlink("a"), 1);
}
