//! The daemon's decisions. It can make a block longer or wider. It cannot
//! make one shorter; that code does not exist. Reading the socket, writing
//! files and stopping processes happen around these functions.

use vstd::prelude::*;

use crate::blocklist::{everything, Blocklist};
use crate::proto::{Request, Response};
use crate::state::{extended, State};
use crate::text::{contains_string, debug_quoted, debug_text, views};

verus! {

/// At most this many requests are served at once; more are dropped.
pub const MAX_WORKERS: usize = 16;

/// A request is one line of at most this many bytes.
pub const MAX_REQUEST: u64 = 4096;

/// The longest block that can be asked for at once: 30 days.
pub const MAX_BLOCK_SECS: u64 = 2_592_000;

// ---------------------------------------------------------------------------
// The tick.
// ---------------------------------------------------------------------------

#[derive(Debug, Clone, Copy, PartialEq, Eq, Structural)]
pub enum Tick {
    /// Rewrite the hosts fence and stop the listed processes.
    Enforce,
    /// Take the fence down and forget the block.
    Release,
    /// Nothing to do.
    Idle,
}

/// What is due at `now` in `state`, given whether the fence may still be up.
pub open spec fn tick_of(state: State, now: u64, was_active: bool) -> Tick {
    if state.spec_active_at(now) {
        Tick::Enforce
    } else if was_active || !state.is_default() {
        Tick::Release
    } else {
        Tick::Idle
    }
}

/// What to do this second. While a block is on it is enforced; once over,
/// the fence comes down, and stays due until it is actually gone.
pub fn tick(state: &State, now: u64, was_active: bool) -> (t: Tick)
    ensures
        t == tick_of(*state, now, was_active),
        state.until > now ==> t == Tick::Enforce,
        state.until <= now ==> t != Tick::Enforce,
{
    if state.active_at(now) {
        Tick::Enforce
    } else if was_active || !state.is_empty_state() {
        Tick::Release
    } else {
        Tick::Idle
    }
}

/// Whether the fence may still be up after a tick: yes after enforcing; after
/// a release, only if the release failed; otherwise as it was.
pub open spec fn carry(t: Tick, was_active: bool, released: bool) -> bool {
    match t {
        Tick::Enforce => true,
        Tick::Release => !released,
        Tick::Idle => was_active,
    }
}

/// Whether the fence may still be up after doing `t` (`released`: whether a
/// release succeeded).
pub fn carried(t: Tick, was_active: bool, released: bool) -> (r: bool)
    ensures
        r == carry(t, was_active, released),
{
    match t {
        Tick::Enforce => true,
        Tick::Release => !released,
        Tick::Idle => was_active,
    }
}

/// Every second a block is on is enforced, whatever happened the second
/// before; a second with no block on is never enforced: it releases the
/// fence when one may be up or a block is remembered, and otherwise does
/// nothing.
pub proof fn lemma_tick_enforces_while_on(state: State, now: u64, was_active: bool)
    ensures
        state.until > now ==> tick_of(state, now, was_active) == Tick::Enforce,
        state.until <= now && (was_active || state.until != 0 || state.categories@.len() != 0
            || state.since != 0) ==> tick_of(state, now, was_active) == Tick::Release,
        state.until <= now && !was_active && state.until == 0 && state.categories@.len() == 0
            && state.since == 0 ==> tick_of(state, now, was_active) == Tick::Idle,
{
}

/// A release that failed is retried at every later tick with no block on,
/// until one succeeds; the daemon starts as if a block had just ended, so a
/// fence left by a crash comes down at the first tick without a block.
pub proof fn lemma_release_retried(s1: State, n1: u64, was_active: bool, s2: State, n2: u64)
    ensures
        tick_of(s1, n1, was_active) == Tick::Release && !s2.spec_active_at(n2) ==> tick_of(
            s2,
            n2,
            carry(Tick::Release, was_active, false),
        ) == Tick::Release,
        tick_of(s1, n1, was_active) == Tick::Enforce && !s2.spec_active_at(n2) ==> tick_of(
            s2,
            n2,
            carry(Tick::Enforce, was_active, false),
        ) == Tick::Release,
        !s1.spec_active_at(n1) ==> tick_of(s1, n1, true) == Tick::Release,
{
}

// ---------------------------------------------------------------------------
// The pool of request handlers.
// ---------------------------------------------------------------------------

/// How many requests are being handled; never more than `MAX_WORKERS`.
pub struct Pool {
    busy: usize,
}

impl Pool {
    #[verifier::type_invariant]
    closed spec fn inv(&self) -> bool {
        self.busy <= MAX_WORKERS
    }

    pub closed spec fn count(&self) -> nat {
        self.busy as nat
    }

    /// No request being handled.
    pub fn new() -> (p: Self)
        ensures
            p.count() == 0,
    {
        Pool { busy: 0 }
    }

    /// Take a place for one more request, when fewer than `MAX_WORKERS` are
    /// being handled; otherwise the connection is to be dropped unanswered.
    pub fn enter(&mut self) -> (admitted: bool)
        ensures
            admitted == (old(self).count() < MAX_WORKERS),
            final(self).count() == if admitted { old(self).count() + 1 } else { old(self).count() },
            final(self).count() <= MAX_WORKERS,
    {
        proof {
            use_type_invariant(&*self);
        }
        if admits(self.busy) {
            self.busy = self.busy + 1;
            true
        } else {
            false
        }
    }

    /// Give back the place of a request that has been handled.
    pub fn leave(&mut self)
        ensures
            final(self).count() == if old(self).count() > 0 { old(self).count() - 1 } else { 0 },
            final(self).count() <= MAX_WORKERS,
    {
        proof {
            use_type_invariant(&*self);
        }
        if self.busy > 0 {
            self.busy = self.busy - 1;
        }
    }
}

/// Whether the hosts file must be restored now: only once the block is over.
pub fn must_release(state: &State, now: u64) -> (r: bool)
    ensures
        r == !state.spec_active_at(now),
{
    !state.active_at(now)
}

// ---------------------------------------------------------------------------
// Who may start a block.
// ---------------------------------------------------------------------------

/// Root, or whoever is sitting at the machine (the owner of the console),
/// may start a block; other local accounts may only ask for status. A
/// relocated test install lets everyone.
pub fn peer_may_block(is_test: bool, peer_uid: Option<u32>, console_uid: Option<u32>) -> (r: bool)
    ensures
        r == (is_test || match peer_uid {
            None => false,
            Some(uid) => uid == 0 || console_uid == Some(uid),
        }),
{
    if is_test {
        return true;
    }
    match peer_uid {
        None => false,
        Some(uid) => uid == 0 || console_uid == Some(uid),
    }
}

/// Whether a connection can be served while `busy` others are.
pub fn admits(busy: usize) -> (r: bool)
    ensures
        r == (busy < MAX_WORKERS),
{
    busy < MAX_WORKERS
}

// ---------------------------------------------------------------------------
// Starting or widening a block.
// ---------------------------------------------------------------------------

/// The requested names that are neither a category nor "everything".
pub open spec fn unknown_names(known: Seq<Seq<char>>, names: Seq<Seq<char>>) -> Seq<Seq<char>> {
    names.filter(|n: Seq<char>| n != everything() && !known.contains(n))
}

/// `["a", "b"]`: how `Debug` writes a list of strings.
pub open spec fn debug_list(items: Seq<Seq<char>>) -> Seq<char> {
    "["@ + debug_items(items) + "]"@
}

pub open spec fn debug_items(items: Seq<Seq<char>>) -> Seq<char>
    decreases items.len(),
{
    if items.len() == 0 {
        Seq::<char>::empty()
    } else if items.len() == 1 {
        debug_quoted(items[0])
    } else {
        debug_items(items.drop_last()) + ", "@ + debug_quoted(items.last())
    }
}

#[derive(Debug, Clone, Copy, PartialEq, Eq, Structural)]
pub enum OffRefusal {
    Past,
    TooLong,
    Unknown,
    Nothing,
}

/// Why a request to turn things off is refused, if it is.
pub open spec fn off_refusal(
    known: Seq<Seq<char>>,
    now: u64,
    until: u64,
    names: Seq<Seq<char>>,
) -> Option<OffRefusal> {
    if until <= now {
        Some(OffRefusal::Past)
    } else if until - now > MAX_BLOCK_SECS {
        Some(OffRefusal::TooLong)
    } else if unknown_names(known, names).len() > 0 {
        Some(OffRefusal::Unknown)
    } else if names.len() == 0 {
        Some(OffRefusal::Nothing)
    } else {
        None
    }
}

pub open spec fn refusal_message(r: OffRefusal, known: Seq<Seq<char>>, names: Seq<Seq<char>>) -> Seq<
    char,
> {
    match r {
        OffRefusal::Past => "that time is already past"@,
        OffRefusal::TooLong => "30 days is the longest block; you can add more later"@,
        OffRefusal::Unknown => "unknown categories: "@ + debug_list(unknown_names(known, names))
            + "; try `tto list`"@,
        OffRefusal::Nothing => "nothing selected"@,
    }
}

/// Turn the named categories off until `until`, merged into the current
/// block: the later of the two ends, the union of the categories. Refused
/// for a time already past, more than 30 days ahead, an unknown category,
/// or an empty selection; then the block is left as it was.
pub fn off(known: &Blocklist, state: &mut State, now: u64, until: u64, categories: &Vec<String>) -> (r:
    Result<(), String>)
    ensures
        match off_refusal(known.keys(), now, until, views(categories@)) {
            Some(why) => {
                &&& r matches Err(m) && m@ == refusal_message(why, known.keys(), views(categories@))
                &&& *final(state) == *old(state)
            },
            None => {
                &&& r is Ok
                &&& extended(*old(state), *final(state), now, until, views(categories@))
            },
        },
{
    let unknown = unknown_categories(known, categories);
    if until <= now {
        return Err(String::from_str("that time is already past"));
    }
    if until - now > MAX_BLOCK_SECS {
        return Err(String::from_str("30 days is the longest block; you can add more later"));
    }
    if unknown.len() > 0 {
        let mut m = String::from_str("unknown categories: ");
        m.append(debug_list_text(&unknown).as_str());
        m.append("; try `tto list`");
        return Err(m);
    }
    if categories.len() == 0 {
        return Err(String::from_str("nothing selected"));
    }
    state.extend_at(now, until, categories.as_slice());
    Ok(())
}

/// The requested names that are neither a category nor "everything", in order.
fn unknown_categories(known: &Blocklist, categories: &Vec<String>) -> (r: Vec<String>)
    ensures
        views(r@) == unknown_names(known.keys(), views(categories@)),
{
    let every = String::from_str("everything");
    proof {
        reveal_strlit("everything");
        assert(every@ =~= everything());
    }
    let mut r: Vec<String> = Vec::new();
    let mut i: usize = 0;
    let ghost pred = |n: Seq<char>| n != everything() && !known.keys().contains(n);
    assert(views(categories@).take(0).filter(pred) =~= Seq::<Seq<char>>::empty());
    while i < categories.len()
        invariant
            i <= categories@.len(),
            every@ == everything(),
            pred == (|n: Seq<char>| n != everything() && !known.keys().contains(n)),
            views(r@) == views(categories@).take(i as int).filter(pred),
        decreases categories@.len() - i,
    {
        let c = &categories[i];
        let out = *c != every && !known.contains(c);
        proof {
            reveal_with_fuel(Seq::<_>::filter, 1);
            assert(views(categories@).take(i + 1).drop_last() =~= views(categories@).take(i as int));
            assert(views(categories@).take(i + 1).last() == c@);
        }
        if out {
            r.push(c.clone());
            assert(views(r@) =~= views(categories@).take(i as int).filter(pred).push(c@));
        }
        i = i + 1;
    }
    assert(views(categories@).take(categories@.len() as int) =~= views(categories@));
    r
}

/// `Debug` of a list of strings.
fn debug_list_text(items: &Vec<String>) -> (r: String)
    ensures
        r@ == debug_list(views(items@)),
{
    let mut m = String::from_str("[");
    let mut i: usize = 0;
    while i < items.len()
        invariant
            i <= items@.len(),
            m@ == "["@ + debug_items(views(items@).take(i as int)),
        decreases items@.len() - i,
    {
        proof {
            assert(views(items@).take(i + 1).drop_last() =~= views(items@).take(i as int));
            assert(views(items@).take(i + 1).last() == items@[i as int]@);
        }
        if i > 0 {
            m.append(", ");
        }
        m.append(debug_text(items[i].as_str()).as_str());
        proof {
            if i == 0 {
                assert(views(items@).take(0) =~= Seq::<Seq<char>>::empty());
                assert(debug_items(views(items@).take(0)) =~= Seq::<char>::empty());
                assert(views(items@).take(1)[0] == items@[0]@);
            }
        }
        i = i + 1;
    }
    m.append("]");
    assert(views(items@).take(items@.len() as int) =~= views(items@));
    m
}

/// A refusal carrying exactly this message.
pub open spec fn refused_with(resp: Response, msg: Seq<char>) -> bool {
    !resp.ok && match resp.error {
        Some(m) => m@ == msg,
        None => false,
    }
}

/// The answer to an accepted `off`, once the state was saved and the block
/// applied: the block is on either way, but what did not happen is said.
pub fn off_reply(persisted: Result<(), String>, enforced: Result<(), String>, snapshot: State) -> (r:
    Response)
    ensures
        persisted is Ok && enforced is Ok ==> r.ok && r.state == snapshot,
        persisted matches Err(e) ==> refused_with(r, e@ + ". The block is on, but will not survive a restart."@),
        persisted is Ok ==> (enforced matches Err(e) ==> refused_with(
            r,
            e@ + ". Processes are stopped, but the network is not blocked."@,
        )),
{
    match (persisted, enforced) {
        (Ok(()), Ok(())) => Response::ok(snapshot),
        (Err(e), _) => {
            let mut m = e;
            m.append(". The block is on, but will not survive a restart.");
            Response::err(m)
        },
        (_, Err(e)) => {
            let mut m = e;
            m.append(". Processes are stopped, but the network is not blocked.");
            Response::err(m)
        },
    }
}

// ---------------------------------------------------------------------------
// A request.
// ---------------------------------------------------------------------------

#[derive(Debug)]
pub enum Decision {
    /// Answer with this.
    Reply(Response),
    /// Answer with the current state.
    Status,
    /// Run `off` with these, then answer with `off_reply`.
    Off { until: u64, categories: Vec<String> },
}

/// What to do with one request line. `parsed` is the line read as a
/// request, consulted only when the line ended within the size limit.
pub fn decide(line_ended: bool, parsed: Result<Request, String>, may_block: bool) -> (d: Decision)
    ensures
        !line_ended ==> (d matches Decision::Reply(resp) && refused_with(
            resp,
            "request too long or unterminated"@,
        )),
        line_ended ==> match parsed {
            Ok(Request::Ping) => d is Status,
            Ok(Request::Status) => d is Status,
            Ok(Request::Off { until, categories }) => if may_block {
                d matches Decision::Off { until: u, categories: c } && u == until && c@
                    == categories@
            } else {
                d matches Decision::Reply(resp) && refused_with(
                    resp,
                    "only the person at this Mac (or root) can start a block"@,
                )
            },
            Err(e) => d matches Decision::Reply(resp) && refused_with(resp, "bad request: "@ + e@),
        },
{
    if !line_ended {
        return Decision::Reply(Response::err(String::from_str("request too long or unterminated")));
    }
    match parsed {
        Ok(Request::Ping) => Decision::Status,
        Ok(Request::Status) => Decision::Status,
        Ok(Request::Off { until, categories }) => {
            if may_block {
                Decision::Off { until, categories }
            } else {
                Decision::Reply(
                    Response::err(
                        String::from_str("only the person at this Mac (or root) can start a block"),
                    ),
                )
            }
        },
        Err(e) => {
            let mut m = String::from_str("bad request: ");
            m.append(e.as_str());
            Decision::Reply(Response::err(m))
        },
    }
}

// ---------------------------------------------------------------------------
// Laws.
// ---------------------------------------------------------------------------

/// A refused request leaves the block exactly as it was, and an accepted
/// one asked for a time in the next 30 days and named only known categories.
pub proof fn lemma_off_bounds(known: Seq<Seq<char>>, now: u64, until: u64, names: Seq<Seq<char>>)
    requires
        off_refusal(known, now, until, names) is None,
    ensures
        now < until,
        until - now <= MAX_BLOCK_SECS,
        names.len() > 0,
        forall|i: int| 0 <= i < names.len() ==> names[i] == everything() || known.contains(#[trigger] names[i]),
{
    assert forall|i: int| 0 <= i < names.len() implies names[i] == everything() || known.contains(#[trigger] names[i]) by {
        if !(names[i] == everything() || known.contains(names[i])) {
            let pred = |n: Seq<char>| n != everything() && !known.contains(n);
            names.lemma_filter_contains_rev(pred, names[i]);
            assert(names.contains(names[i]));
            assert(unknown_names(known, names).contains(names[i]));
        }
    }
}

} // verus!
