use tto::install::{plist_xml, uninstall_refusal};
use tto::state::State;
use tto::paths::Paths;

#[test]
fn real_install_paths() {
    let p = Paths::new(String::new());
    assert!(!p.is_test());
    assert_eq!(p.state(), "/var/db/tto/state.json");
    assert_eq!(p.socket(), "/var/run/tto.sock");
    assert_eq!(p.hosts(), "/etc/hosts");
    assert_eq!(p.helper(), "/Library/PrivilegedHelperTools/dev.oceanheart.tto");
    assert_eq!(p.blocklist_override(), "/var/db/tto/blocklist.toml");
}

#[test]
fn relocated_paths_stay_under_the_prefix() {
    let p = Paths::new("/tmp/x".into());
    assert!(p.is_test());
    assert_eq!(p.state_dir(), "/tmp/x/var/db/tto");
    assert_eq!(p.hosts(), "/tmp/x/etc/hosts");
    assert_eq!(p.helper(), "/tmp/x/Library/PrivilegedHelperTools/dev.oceanheart.tto");
    assert_eq!(p.plist(), "/tmp/x/Library/LaunchDaemons/dev.oceanheart.tto.plist");
    assert_eq!(p.plist_backup(), "/tmp/x/var/db/tto/dev.oceanheart.tto.plist");
    let q = Paths::new("/tmp/y/".into());
    assert_eq!(q.socket(), "/tmp/y/var/run/tto.sock");
}

#[test]
fn plist_runs_the_helper_as_daemon() {
    let x = plist_xml("/opt/h");
    assert!(x.starts_with("<?xml version=\"1.0\" encoding=\"UTF-8\"?>\n"));
    assert!(x.contains("<key>Label</key><string>dev.oceanheart.tto</string>"));
    assert!(x.contains("    <string>/opt/h</string>\n    <string>daemon</string>\n"));
    assert!(x.ends_with("</dict>\n</plist>\n"));
}

#[test]
fn uninstall_waits_for_the_block() {
    let s = State { until: 100, categories: vec!["chat".into()], since: 1 };
    let why = uninstall_refusal(&s, 50).expect("refused while on");
    assert!(why.starts_with("a block is active until "));
    assert!(why.ends_with(". Uninstall is not a back door; try again then. (`tto recovery` if you truly must.)"));
    assert_eq!(uninstall_refusal(&s, 100), None);
    assert_eq!(uninstall_refusal(&State::default(), 0), None);
}
