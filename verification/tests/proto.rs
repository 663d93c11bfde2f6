use tto::proto::{ClientError, Response, VERSION};
use tto::state::State;

#[test]
fn an_accepted_reply_is_handed_back() {
    let s = State { until: 500, categories: vec!["chat".into()], since: 100 };
    let r = Response::ok(s).settle().expect("accepted");
    assert!(r.ok);
    assert_eq!(r.state.until, 500);
    assert_eq!(r.version, VERSION);
}

#[test]
fn a_refusal_becomes_the_helpers_words() {
    match Response::err("unknown category".to_string()).settle() {
        Err(ClientError::Daemon(m)) => assert_eq!(m, "unknown category"),
        _ => panic!("expected a refusal"),
    }
}

#[test]
fn a_refusal_without_words_is_empty() {
    let r = Response { ok: false, error: None, state: State::default(), version: String::new() };
    match r.settle() {
        Err(ClientError::Daemon(m)) => assert_eq!(m, ""),
        _ => panic!("expected a refusal"),
    }
}

#[test]
fn client_errors_read_as_the_cli_prints_them() {
    assert_eq!(
        ClientError::NotInstalled.message(),
        "the helper isn't installed. Run `sudo tto install`, or open the menu bar app and choose Install"
    );
    assert_eq!(ClientError::Daemon("no".into()).message(), "no");
    let io = ClientError::Io(std::io::Error::new(std::io::ErrorKind::Other, "boom"));
    assert_eq!(io.message(), "can't talk to the helper: boom");
}
