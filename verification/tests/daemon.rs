use tto::blocklist::{Blocklist, Category};
use tto::daemon::{
    admits, carried, decide, must_release, off, off_reply, peer_may_block, tick, Decision, Pool, Tick,
};
use tto::proto::{ClientError, Request, Response, VERSION};
use tto::state::State;

fn known() -> Blocklist {
    let mut list = Blocklist::new(1);
    for n in ["chat", "coding", "local"] {
        list.insert(n.into(), Category::default());
    }
    list
}

#[test]
fn off_refusals() {
    let list = known();
    let mut s = State::default();
    let cats = vec!["chat".to_string()];
    assert_eq!(off(&list, &mut s, 100, 100, &cats), Err("that time is already past".to_string()));
    assert_eq!(
        off(&list, &mut s, 100, 100 + 30 * 86400 + 1, &cats),
        Err("30 days is the longest block; you can add more later".to_string())
    );
    assert_eq!(
        off(&list, &mut s, 100, 200, &vec!["chat".into(), "video".into(), "x\"y".into()]),
        Err("unknown categories: [\"video\", \"x\\\"y\"]; try `tto list`".to_string())
    );
    assert_eq!(off(&list, &mut s, 100, 200, &vec![]), Err("nothing selected".to_string()));
    assert!(s.is_empty_state(), "a refused request changes nothing");
}

#[test]
fn off_accepts_and_widens() {
    let list = known();
    let mut s = State::default();
    assert_eq!(off(&list, &mut s, 100, 100 + 30 * 86400, &vec!["everything".into()]), Ok(()));
    assert_eq!(s.until, 100 + 30 * 86400);
    assert_eq!(s.since, 100);
    assert_eq!(off(&list, &mut s, 200, 300, &vec!["chat".into()]), Ok(()));
    assert_eq!(s.until, 100 + 30 * 86400, "never shorter");
    assert_eq!(s.categories, vec!["everything".to_string(), "chat".to_string()]);
}

#[test]
fn ticks() {
    let on = State { until: 10, categories: vec!["chat".into()], since: 1 };
    assert_eq!(tick(&on, 5, false), Tick::Enforce);
    assert_eq!(tick(&on, 10, false), Tick::Release);
    assert_eq!(tick(&State::default(), 10, true), Tick::Release);
    assert_eq!(tick(&State::default(), 10, false), Tick::Idle);
    assert!(!must_release(&on, 9));
    assert!(must_release(&on, 10));
}

#[test]
fn who_may_block() {
    assert!(peer_may_block(true, None, None));
    assert!(!peer_may_block(false, None, Some(501)));
    assert!(peer_may_block(false, Some(0), None));
    assert!(peer_may_block(false, Some(501), Some(501)));
    assert!(!peer_may_block(false, Some(502), Some(501)));
    assert!(admits(15));
    assert!(!admits(16));
}

#[test]
fn decisions() {
    match decide(false, Ok(Request::Status), true) {
        Decision::Reply(r) => {
            assert!(!r.ok);
            assert_eq!(r.error.as_deref(), Some("request too long or unterminated"));
        }
        other => panic!("{other:?}"),
    }
    assert!(matches!(decide(true, Ok(Request::Ping), false), Decision::Status));
    match decide(true, Ok(Request::Off { until: 5, categories: vec!["chat".into()] }), false) {
        Decision::Reply(r) => assert_eq!(
            r.error.as_deref(),
            Some("only the person at this Mac (or root) can start a block")
        ),
        other => panic!("{other:?}"),
    }
    match decide(true, Ok(Request::Off { until: 5, categories: vec!["chat".into()] }), true) {
        Decision::Off { until, categories } => {
            assert_eq!(until, 5);
            assert_eq!(categories, vec!["chat".to_string()]);
        }
        other => panic!("{other:?}"),
    }
    match decide(true, Err("expected value".into()), true) {
        Decision::Reply(r) => assert_eq!(r.error.as_deref(), Some("bad request: expected value")),
        other => panic!("{other:?}"),
    }
}

#[test]
fn replies_after_off() {
    let snap = State { until: 9, categories: vec![], since: 1 };
    let r = off_reply(Ok(()), Ok(()), snap.clone());
    assert!(r.ok);
    assert_eq!(r.state.until, 9);
    assert_eq!(r.version, VERSION);
    let r = off_reply(Err("could not save state: x".into()), Err("y".into()), snap.clone());
    assert_eq!(
        r.error.as_deref(),
        Some("could not save state: x. The block is on, but will not survive a restart.")
    );
    let r = off_reply(Ok(()), Err("could not write hosts file: z".into()), snap);
    assert_eq!(
        r.error.as_deref(),
        Some("could not write hosts file: z. Processes are stopped, but the network is not blocked.")
    );
    let e = Response::err("no".into());
    assert!(!e.ok && e.state.is_empty_state());
}

#[test]
fn client_errors_in_words() {
    assert!(ClientError::NotInstalled.message().starts_with("the helper isn't installed"));
    assert_eq!(ClientError::Daemon("boom".into()).message(), "boom");
    let io = ClientError::Io(std::io::Error::new(std::io::ErrorKind::Other, "gone"));
    assert_eq!(io.message(), "can't talk to the helper: gone");
}

#[test]
fn a_failed_release_is_retried() {
    let over = State { until: 100, categories: vec!["chat".into()], since: 1 };
    // The daemon starts as if a block had just ended.
    assert_eq!(tick(&State::default(), 500, true), Tick::Release);
    let w = carried(Tick::Release, true, false);
    assert!(w);
    assert_eq!(tick(&State::default(), 501, w), Tick::Release);
    let w = carried(Tick::Release, w, true);
    assert!(!w);
    assert_eq!(tick(&State::default(), 502, w), Tick::Idle);
    assert!(carried(Tick::Enforce, false, false));
    assert!(!carried(Tick::Idle, false, true));
    assert_eq!(tick(&over, 200, false), Tick::Release);
}

#[test]
fn at_most_sixteen_requests_at_once() {
    let mut pool = Pool::new();
    for _ in 0..16 {
        assert!(pool.enter());
    }
    assert!(!pool.enter(), "the seventeenth is dropped");
    pool.leave();
    assert!(pool.enter());
    assert!(!pool.enter());
}
