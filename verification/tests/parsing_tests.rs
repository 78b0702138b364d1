use bootmount::engine::DiskInfo;

fn cfg(text: &str, default_force: bool) -> DiskInfo {
    let mut d = DiskInfo::fresh(default_force);
    d.read_cfg(text.to_string());
    d
}

fn inv(text: &str) -> DiskInfo {
    let mut d = DiskInfo::fresh(false);
    d.read_lsblk(text.to_string());
    d
}

#[test]
fn config_force_and_one_request() {
    let d = cfg("force 1\nABCD-1234 /mnt/data\n", false);
    assert!(d.force_policy());
    assert_eq!(d.requests_len(), 1);
    let (uuid, path) = d.request_at(0);
    assert_eq!(uuid, "ABCD-1234");
    assert_eq!(path, "/mnt/data");
}

#[test]
fn config_unrecognized_force_literal_reads_false() {
    let d = cfg("force banana\n", false);
    assert!(!d.force_policy());
    assert_eq!(d.requests_len(), 0);
    // even a previously true policy is overwritten
    let d2 = cfg("force banana\n", true);
    assert!(!d2.force_policy());
}

#[test]
fn config_recognized_force_literals() {
    for lit in ["1", "true", "True"] {
        assert!(cfg(&format!("force {}\n", lit), false).force_policy());
    }
    for lit in ["0", "false", "False"] {
        assert!(!cfg(&format!("force {}\n", lit), true).force_policy());
    }
}

#[test]
fn config_last_force_line_wins() {
    let d = cfg("force 1\nforce 0\n", false);
    assert!(!d.force_policy());
    let d2 = cfg("force 0\nforce true\n", false);
    assert!(d2.force_policy());
}

#[test]
fn config_default_force_kept_without_force_line() {
    assert!(cfg("ABCD-1234 /mnt/data\n", true).force_policy());
    assert!(!cfg("ABCD-1234 /mnt/data\n", false).force_policy());
}

#[test]
fn config_malformed_lines_dropped() {
    let d = cfg("\n\nonly-one-token\na b c\nU-1 /mnt/a\n", false);
    assert_eq!(d.requests_len(), 1);
    let (uuid, path) = d.request_at(0);
    assert_eq!(uuid, "U-1");
    assert_eq!(path, "/mnt/a");
}

#[test]
fn config_double_space_is_malformed() {
    // two spaces make three tokens, so the line is dropped
    let d = cfg("force  1\n", false);
    assert!(!d.force_policy());
    assert_eq!(d.requests_len(), 0);
}

#[test]
fn config_lines_are_trimmed() {
    let d = cfg("\tforce 1  \n  U-1 /mnt/a\n", false);
    assert!(d.force_policy());
    assert_eq!(d.requests_len(), 1);
    let (uuid, path) = d.request_at(0);
    assert_eq!(uuid, "U-1");
    assert_eq!(path, "/mnt/a");
}

#[test]
fn config_empty_text_yields_nothing() {
    let d = cfg("", true);
    assert!(d.force_policy());
    assert_eq!(d.requests_len(), 0);
}

#[test]
fn config_parsing_is_repeatable_and_replaces() {
    let text = "force 1\nU-1 /mnt/a\nU-2 /mnt/b\n";
    let mut d = DiskInfo::fresh(false);
    d.read_cfg(text.to_string());
    let first: Vec<(String, String)> = (0..d.requests_len()).map(|i| d.request_at(i)).collect();
    let force_first = d.force_policy();
    d.read_cfg(text.to_string());
    let second: Vec<(String, String)> = (0..d.requests_len()).map(|i| d.request_at(i)).collect();
    assert_eq!(first, second);
    assert_eq!(force_first, d.force_policy());
    assert_eq!(d.requests_len(), 2);
}

#[test]
fn inventory_two_records() {
    let d = inv("NAME UUID\nsda1 ABCD-1234\nsda2 EFGH-5678\n");
    assert_eq!(d.blocks_len(), 2);
    let (n0, u0) = d.block_at(0);
    assert_eq!(n0, "sda1");
    assert_eq!(u0, "ABCD-1234");
    let (n1, u1) = d.block_at(1);
    assert_eq!(n1, "sda2");
    assert_eq!(u1, "EFGH-5678");
}

#[test]
fn inventory_drops_lines_whose_first_token_has_name_in_it() {
    // a device literally called NAMETAG is filtered out with the header
    let d = inv("NAME UUID\nNAMETAG X-1\nsda1 U-1\n");
    assert_eq!(d.blocks_len(), 1);
    let (n0, u0) = d.block_at(0);
    assert_eq!(n0, "sda1");
    assert_eq!(u0, "U-1");
}

#[test]
fn inventory_takes_last_token_as_identifier() {
    // extra columns between name and identifier are tolerated
    let d = inv("sda1 part ABCD-1234\n");
    assert_eq!(d.blocks_len(), 1);
    let (n0, u0) = d.block_at(0);
    assert_eq!(n0, "sda1");
    assert_eq!(u0, "ABCD-1234");
}

#[test]
fn inventory_tolerates_runs_of_spaces() {
    // runs of spaces only add empty tokens; the last token still wins
    let d = inv("sda1   ABCD-1234\n");
    assert_eq!(d.blocks_len(), 1);
    let (n0, u0) = d.block_at(0);
    assert_eq!(n0, "sda1");
    assert_eq!(u0, "ABCD-1234");
}

#[test]
fn inventory_drops_short_and_blank_lines() {
    let d = inv("\nsda1\n\nsdb1 U-2\n");
    assert_eq!(d.blocks_len(), 1);
    let (n0, u0) = d.block_at(0);
    assert_eq!(n0, "sdb1");
    assert_eq!(u0, "U-2");
}

#[test]
fn inventory_empty_text_yields_nothing() {
    let d = inv("");
    assert_eq!(d.blocks_len(), 0);
}
