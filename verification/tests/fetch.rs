use git_hud::fetch::{auto_fetch_enabled, fetch_args, fetch_outcome, fetch_unavailable};

#[test]
fn fetch_is_hardened_against_ext_protocol() {
    let args = fetch_args("/some/repo");
    let joined = args.join(" ");
    assert!(joined.contains("protocol.ext.allow=never"), "ext disabled");
    assert!(joined.contains("protocol.fd.allow=never"), "fd disabled");
    // The hardening `-c` flags must precede the `fetch` subcommand to take effect.
    let fetch_pos = args.iter().position(|a| a == "fetch").unwrap();
    let ext_pos = args.iter().position(|a| a == "protocol.ext.allow=never").unwrap();
    assert!(ext_pos < fetch_pos, "-c config must come before the subcommand");
    assert_eq!(args.iter().filter(|a| *a == "/some/repo").count(), 1);
}

#[test]
fn fetch_args_are_exact() {
    assert_eq!(
        fetch_args("/r"),
        vec![
            "-c", "protocol.ext.allow=never", "-c", "protocol.fd.allow=never", "-C", "/r",
            "fetch", "--all", "--prune", "--quiet"
        ]
    );
}

#[test]
fn successful_fetch_has_no_message() {
    let o = fetch_outcome(true, &b"warning: something\n".to_vec());
    assert!(o.ok);
    assert_eq!(o.message, "");
}

#[test]
fn failed_fetch_reports_first_trimmed_line() {
    let o = fetch_outcome(false, &b"  fatal: could not read from remote\r\nmore detail\n".to_vec());
    assert!(!o.ok);
    assert_eq!(o.message, "fatal: could not read from remote");
}

#[test]
fn failed_fetch_with_blank_first_line_is_generic() {
    let o = fetch_outcome(false, &b" \t\nsecond line".to_vec());
    assert_eq!(o.message, "git fetch failed");
    let o = fetch_outcome(false, &Vec::new());
    assert_eq!(o.message, "git fetch failed");
}

#[test]
fn failed_fetch_decodes_invalid_utf8_leniently() {
    let o = fetch_outcome(false, &vec![b'e', 0xff, b'r']);
    assert_eq!(o.message, "e\u{FFFD}r");
}

#[test]
fn missing_git_is_reported() {
    let o = fetch_unavailable("No such file or directory (os error 2)");
    assert!(!o.ok);
    assert_eq!(o.message, "git not available: No such file or directory (os error 2)");
}

#[test]
fn auto_fetch_is_on_unless_turned_off() {
    assert!(auto_fetch_enabled(&None));
    assert!(auto_fetch_enabled(&Some("on".to_string())));
    assert!(auto_fetch_enabled(&Some("OFF".to_string())));
    assert!(!auto_fetch_enabled(&Some("off".to_string())));
}
