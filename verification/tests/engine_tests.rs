use bootmount::engine::{DiskInfo, ErrType};

fn engine(cfg_text: &str, inv_text: &str, default_force: bool) -> DiskInfo {
    let mut d = DiskInfo::fresh(default_force);
    d.read_cfg(cfg_text.to_string());
    d.read_lsblk(inv_text.to_string());
    d
}

#[test]
fn resolution_ties_go_to_the_first_record() {
    let d = engine("", "sda1 X\nsdb1 X\n", false);
    assert_eq!(d.blocks_len(), 2);
    let name = d.find_name(&"X".to_string());
    assert_eq!(name, Some("sda1".to_string()));
}

#[test]
fn resolution_misses_yield_none() {
    let d = engine("", "sda1 X\n", false);
    assert_eq!(d.find_name(&"Y".to_string()), None);
}

#[test]
fn forced_recovery_state_is_empty_and_forced() {
    for e in [ErrType::IOError, ErrType::LsblkErr, ErrType::ReadLsblkErr, ErrType::MountErr] {
        let d = DiskInfo::force(e);
        assert!(d.force_policy());
        assert_eq!(d.blocks_len(), 0);
        assert_eq!(d.requests_len(), 0);
    }
}

#[test]
fn startup_error_branch_follows_the_policy() {
    let forced = DiskInfo::fresh(true).on_startup_error(ErrType::IOError);
    let d = forced.expect("a forced engine should be built");
    assert!(d.force_policy());
    assert_eq!(d.requests_len(), 0);
    let skipped = DiskInfo::fresh(false).on_startup_error(ErrType::IOError);
    assert!(skipped.is_none());
}

#[test]
fn run_attempts_only_what_resolves() {
    // the first request resolves and mounts; the second cannot be resolved,
    // so exactly one mount command is issued and the run completes
    let d = engine("U-1 /mnt/a\nU-2 /mnt/b\n", "NAME UUID\nsda1 U-1\n", false);
    let attempts = d.run_mounts_with(&vec![true, true]);
    assert_eq!(attempts, vec![("sda1".to_string(), "/mnt/a".to_string())]);
}

#[test]
fn run_stops_at_first_failure_without_force() {
    let d = engine(
        "U-1 /mnt/a\nU-2 /mnt/b\nU-3 /mnt/c\n",
        "sda1 U-1\nsdb1 U-2\nsdc1 U-3\n",
        false,
    );
    let attempts = d.run_mounts_with(&vec![true, false, true]);
    assert_eq!(
        attempts,
        vec![
            ("sda1".to_string(), "/mnt/a".to_string()),
            ("sdb1".to_string(), "/mnt/b".to_string()),
        ]
    );
}

#[test]
fn run_goes_on_after_failure_under_force() {
    let d = engine(
        "force 1\nU-1 /mnt/a\nU-2 /mnt/b\nU-3 /mnt/c\n",
        "sda1 U-1\nsdb1 U-2\nsdc1 U-3\n",
        false,
    );
    assert!(d.force_policy());
    let attempts = d.run_mounts_with(&vec![false, false, false]);
    assert_eq!(attempts.len(), 3);
    let (last_name, last_path) = attempts[2].clone();
    assert_eq!(last_name, "sdc1");
    assert_eq!(last_path, "/mnt/c");
}

#[test]
fn run_with_no_requests_attempts_nothing() {
    let d = engine("", "sda1 U-1\n", true);
    let attempts = d.run_mounts_with(&vec![]);
    assert!(attempts.is_empty());
}

#[test]
fn requests_keep_configuration_order() {
    let d = engine("U-2 /mnt/b\nU-1 /mnt/a\n", "", false);
    assert_eq!(d.requests_len(), 2);
    assert_eq!(d.request_at(0), ("U-2".to_string(), "/mnt/b".to_string()));
    assert_eq!(d.request_at(1), ("U-1".to_string(), "/mnt/a".to_string()));
}
