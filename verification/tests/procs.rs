use tto::blocklist::Category;
use tto::procs::{effective_name, is_target, parse_procargs2, procargs_strings, Proc};

fn cat() -> Category {
    Category {
        processes: vec!["codex".into(), "ollama".into()],
        apps: vec!["ChatGPT.app".into()],
        ..Default::default()
    }
}

#[test]
fn matches_app_bundle_by_path_component() {
    let p = Proc {
        pid: 1,
        path: "/Applications/ChatGPT.app/Contents/MacOS/ChatGPT".into(),
        argv: vec![],
        started: None,
    };
    assert!(tto::procs::matches(&p, &cat()));
    let helper = Proc {
        pid: 2,
        path: "/Applications/ChatGPT.app/Contents/Frameworks/x.app/Contents/MacOS/x".into(),
        argv: vec![],
        started: None,
    };
    assert!(
        tto::procs::matches(&helper, &cat()),
        "helpers inside the bundle count too"
    );
}

#[test]
fn matches_cli_by_exe_or_argv_basename() {
    let native = Proc {
        pid: 3,
        path: "/opt/homebrew/bin/ollama".into(),
        argv: vec!["ollama".into(), "serve".into()],
        started: None,
    };
    assert!(tto::procs::matches(&native, &cat()));
    let node = Proc {
        pid: 4,
        path: "/usr/local/bin/node".into(),
        argv: vec!["node".into(), "/Users/x/.npm/bin/codex".into()],
        started: None,
    };
    assert!(tto::procs::matches(&node, &cat()));
    let innocent = Proc {
        pid: 5,
        path: "/usr/local/bin/node".into(),
        argv: vec!["node".into(), "server.js".into()],
        started: None,
    };
    assert!(!tto::procs::matches(&innocent, &cat()));
    // The promise: nothing outside the list is ever signalled.
    let editing = Proc {
        pid: 7,
        path: "/usr/bin/vim".into(),
        argv: vec!["vim".into(), "codex".into()],
        started: None,
    };
    assert!(
        !tto::procs::matches(&editing, &cat()),
        "an editor opened on a file called codex must live"
    );
    let arg = Proc {
        pid: 8,
        path: "/usr/bin/grep".into(),
        argv: vec!["grep".into(), "ollama".into()],
        started: None,
    };
    assert!(!tto::procs::matches(&arg, &cat()));
    let lookalike = Proc {
        pid: 6,
        path: "/usr/bin/codexette".into(),
        argv: vec![],
        started: None,
    };
    assert!(!tto::procs::matches(&lookalike, &cat()), "exact basenames only");
}

#[test]
fn procargs2_parses_argv() {
    let mut buf = 2i32.to_ne_bytes().to_vec();
    buf.extend(b"/usr/local/bin/node\0\0\0node\0/x/codex\0");
    assert_eq!(parse_procargs2(&buf).unwrap(), vec!["node", "/x/codex"]);
}

#[test]
fn procargs_takes_at_most_two_and_needs_terminators() {
    let buf = b"\0\0\0\0/bin/sh\0\0sh\0-c\0echo\0".to_vec();
    assert_eq!(procargs_strings(&buf, 3).unwrap(), vec!["sh", "-c"]);
    assert_eq!(procargs_strings(&buf, 1).unwrap(), vec!["sh"]);
    assert_eq!(procargs_strings(&buf, -4).unwrap(), Vec::<String>::new());
    let cut = b"\0\0\0\0/bin/sh\0sh".to_vec();
    assert!(procargs_strings(&cut, 1).is_none());
    assert!(procargs_strings(b"\0\0\0", 1).is_none());
    assert!(parse_procargs2(b"\0\0").is_none());
    let no_exec_end = b"\0\0\0\0/bin/sh".to_vec();
    assert!(procargs_strings(&no_exec_end, 0).is_none());
}

#[test]
fn procargs_decodes_bytes_lossily() {
    let buf = b"\0\0\0\0x\0\xff\0".to_vec();
    assert_eq!(procargs_strings(&buf, 1).unwrap(), vec!["\u{fffd}"]);
}

#[test]
fn effective_name_uses_script_only_for_interpreters() {
    let py = Proc {
        pid: 9,
        path: "/usr/bin/python3".into(),
        argv: vec!["python3".into(), "/opt/tools/codex".into()],
        started: None,
    };
    assert_eq!(effective_name(&py), "codex");
    let vim = Proc {
        pid: 10,
        path: "/usr/bin/vim".into(),
        argv: vec!["vim".into(), "/tmp/codex".into()],
        started: None,
    };
    assert_eq!(effective_name(&vim), "vim");
    let lone_node = Proc { pid: 11, path: "/usr/bin/node".into(), argv: vec!["node".into()], started: None };
    assert_eq!(effective_name(&lone_node), "node");
}

#[test]
fn basename_follows_path_file_name() {
    let p = |path: &str| Proc { pid: 12, path: path.into(), argv: vec![], started: None };
    assert_eq!(effective_name(&p("/usr/bin/ollama/")), "ollama");
    assert_eq!(effective_name(&p("/usr/bin/ollama/.")), "ollama");
    assert_eq!(effective_name(&p("/usr/bin/..")), "/usr/bin/..");
    assert_eq!(effective_name(&p("/")), "/");
    assert_eq!(effective_name(&p("ollama")), "ollama");
}

#[test]
fn targets_skip_self_and_unknown_start() {
    let mut p = Proc {
        pid: 40,
        path: "/opt/homebrew/bin/ollama".into(),
        argv: vec![],
        started: Some((1, 2)),
    };
    assert!(is_target(&p, 1, &cat()));
    assert!(!is_target(&p, 40, &cat()));
    p.started = None;
    assert!(!is_target(&p, 1, &cat()));
}
