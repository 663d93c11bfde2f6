//! One request in, one response out, over the daemon's socket.
//! Note what is absent: there is no "cancel". Not hidden. Absent.

use vstd::prelude::*;

use crate::state::State;

verus! {

/// The version the helper reports, so the app can tell it is current.
pub const VERSION: &'static str = "0.1.0";

#[derive(Debug)]
pub enum Request {
    Ping,
    Status,
    Off { until: u64, categories: Vec<String> },
}

#[derive(Debug)]
pub struct Response {
    pub ok: bool,
    pub error: Option<String>,
    pub state: State,
    pub version: String,
}

impl Response {
    pub fn ok(state: State) -> (r: Self)
        ensures
            r.ok,
            r.error is None,
            r.state == state,
            r.version@ == VERSION@,
    {
        Response { ok: true, error: None, state, version: String::from_str(VERSION) }
    }

    pub fn err(msg: String) -> (r: Self)
        ensures
            !r.ok,
            r.error matches Some(e) && e@ == msg@,
            r.state.is_default(),
            r.version@ == VERSION@,
    {
        Response {
            ok: false,
            error: Some(msg),
            state: State::default(),
            version: String::from_str(VERSION),
        }
    }

    /// A reply as the caller sees it: the reply itself when the helper said
    /// yes; otherwise the helper's words as the error, empty when it gave none.
    pub fn settle(self) -> (r: Result<Response, ClientError>)
        ensures
            self.ok ==> (r matches Ok(x) && x == self),
            !self.ok ==> (r matches Err(ClientError::Daemon(m)) && m@ == error_text(self.error)),
    {
        if self.ok {
            Ok(self)
        } else {
            match self.error {
                Some(e) => Err(ClientError::Daemon(e)),
                None => Err(ClientError::Daemon(String::new())),
            }
        }
    }
}

/// What a refusal said, or nothing.
pub open spec fn error_text(error: Option<String>) -> Seq<char> {
    match error {
        Some(e) => e@,
        None => Seq::empty(),
    }
}

/// `std::io::Error`, carried through unread.
#[verifier::external_type_specification]
#[verifier::external_body]
pub struct ExIoError(std::io::Error);

/// std's `Display` for `io::Error`: the operating system's words for it,
/// which depend on the machine; nothing is promised of them.
#[verifier::external_body]
fn io_error_text(e: &std::io::Error) -> String {
    e.to_string()
}

#[derive(Debug)]
pub enum ClientError {
    NotInstalled,
    Io(std::io::Error),
    Daemon(String),
}

pub open spec fn not_installed_text() -> Seq<char> {
    "the helper isn't installed. Run `sudo tto install`, or open the menu bar app and choose Install"@
}

impl ClientError {
    /// The error in words, for the person at the terminal.
    pub fn message(&self) -> (r: String)
        ensures
            self is NotInstalled ==> r@ == not_installed_text(),
            self matches ClientError::Daemon(e) ==> r@ == e@,
            self is Io ==> r@.len() >= 26 && r@.subrange(0, 26) == "can't talk to the helper: "@,
    {
        match self {
            ClientError::NotInstalled => String::from_str(
                "the helper isn't installed. Run `sudo tto install`, or open the menu bar app and choose Install",
            ),
            ClientError::Io(e) => {
                let mut m = String::from_str("can't talk to the helper: ");
                proof {
                    reveal_strlit("can't talk to the helper: ");
                }
                let ghost head = m@;
                m.append(io_error_text(e).as_str());
                assert(m@.subrange(0, 26) =~= head);
                m
            },
            ClientError::Daemon(e) => e.clone(),
        }
    }
}

} // verus!
