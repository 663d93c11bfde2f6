//! The daemon's memory: when the block ends, what it covers, when it began.

use vstd::prelude::*;

use crate::text::{contains_string, copy_strings, views};

verus! {

pub const DIR: &'static str = "/var/db/tto";

pub const STATE: &'static str = "/var/db/tto/state.json";

pub const SOCKET: &'static str = "/var/run/tto.sock";

pub const HELPER: &'static str = "/Library/PrivilegedHelperTools/dev.oceanheart.tto";

pub const PLIST: &'static str = "/Library/LaunchDaemons/dev.oceanheart.tto.plist";

pub const PLIST_BACKUP: &'static str = "/var/db/tto/dev.oceanheart.tto.plist";

pub const LABEL: &'static str = "dev.oceanheart.tto";

/// `std::time::SystemTime`, carried through unread.
#[verifier::external_type_specification]
#[verifier::external_body]
pub struct ExSystemTime(std::time::SystemTime);

/// std's `SystemTime::now`: the wall clock. Nothing is promised of the value.
#[verifier::external_body]
fn system_now() -> std::time::SystemTime {
    std::time::SystemTime::now()
}

/// std's `SystemTime::duration_since(UNIX_EPOCH)`, in whole seconds: `Ok`
/// with the time since the epoch, or, for a clock set before 1970, `Err`
/// with how long before it (`SystemTimeError::duration`). Nothing is
/// promised of the value.
#[verifier::external_body]
fn unix_seconds(t: std::time::SystemTime) -> Result<u64, u64> {
    match t.duration_since(std::time::UNIX_EPOCH) {
        Ok(d) => Ok(d.as_secs()),
        Err(e) => Err(e.duration().as_secs()),
    }
}

/// Unix seconds now; 0 for a clock before 1970.
pub fn now() -> u64 {
    match unix_seconds(system_now()) {
        Ok(s) => s,
        Err(_) => 0,
    }
}

/// Unix seconds now, negative for a clock set before 1970, held to the range
/// of `i64`. Reading the clock never fails.
pub fn now_seconds() -> i64 {
    match unix_seconds(system_now()) {
        Ok(s) => if s <= 9_223_372_036_854_775_807 {
            s as i64
        } else {
            9_223_372_036_854_775_807
        },
        Err(b) => if b <= 9_223_372_036_854_775_807 {
            -(b as i64)
        } else {
            -9_223_372_036_854_775_807
        },
    }
}

#[derive(Debug)]
pub struct State {
    /// Unix seconds at which the block ends. 0 = no block.
    pub until: u64,
    pub categories: Vec<String>,
    /// Unix seconds the block started; for the status display.
    pub since: u64,
}

/// `a` followed by each element of `b` that is not already there, in order.
pub open spec fn append_new(a: Seq<Seq<char>>, b: Seq<Seq<char>>) -> Seq<Seq<char>>
    decreases b.len(),
{
    if b.len() == 0 {
        a
    } else {
        let r = append_new(a, b.drop_last());
        if r.contains(b.last()) {
            r
        } else {
            r.push(b.last())
        }
    }
}

/// `new` is `old` merged with a request for `names` until `until`, made at
/// `now`: an inactive block is replaced; an active one keeps the later end
/// and gains the new names after its own.
pub open spec fn extended(old: State, new: State, now: u64, until: u64, names: Seq<Seq<char>>) -> bool {
    if !old.spec_active_at(now) {
        &&& new.until == until
        &&& new.cats() == names
        &&& new.since == now
    } else {
        &&& new.until == if until > old.until { until } else { old.until }
        &&& new.cats() == append_new(old.cats(), names)
        &&& new.since == old.since
    }
}

impl State {
    pub open spec fn cats(&self) -> Seq<Seq<char>> {
        views(self.categories@)
    }

    pub open spec fn spec_active_at(&self, now: u64) -> bool {
        self.until > now
    }

    /// The empty state: no block, nothing selected.
    pub open spec fn is_default(&self) -> bool {
        self.until == 0 && self.categories@.len() == 0 && self.since == 0
    }

    /// A block is on at `now` while its end lies after `now`.
    pub fn active_at(&self, now: u64) -> (r: bool)
        ensures
            r == self.spec_active_at(now),
    {
        self.until > now
    }

    /// Whether the block is on at the current wall-clock second.
    pub fn active(&self) -> (r: bool)
        ensures
            self.until == 0 ==> !r,
    {
        self.active_at(now())
    }

    /// Seconds left at `now`; 0 once over.
    pub fn remaining_at(&self, now: u64) -> (r: u64)
        ensures
            r == if self.until > now { (self.until - now) as u64 } else { 0 },
    {
        if self.until > now {
            self.until - now
        } else {
            0
        }
    }

    /// Seconds left at the current wall-clock second.
    pub fn remaining(&self) -> (r: u64)
        ensures
            r <= self.until,
    {
        self.remaining_at(now())
    }

    pub fn is_empty_state(&self) -> (r: bool)
        ensures
            r == self.is_default(),
    {
        self.until == 0 && self.categories.len() == 0 && self.since == 0
    }

    /// Merge a new request into the block as it stands at `now`. A block can
    /// only ever get longer or wider; an inactive one is replaced outright.
    pub fn extend_at(&mut self, now: u64, until: u64, categories: &[String])
        ensures
            extended(*old(self), *final(self), now, until, views(categories@)),
    {
        if !self.active_at(now) {
            self.until = until;
            self.categories = copy_strings(categories);
            self.since = now;
            assert(views(self.categories@) == views(categories@));
            return;
        }
        if until > self.until {
            self.until = until;
        }
        let ghost start = self.cats();
        let ghost end = self.until;
        let ghost began = self.since;
        let mut i: usize = 0;
        while i < categories.len()
            invariant
                i <= categories@.len(),
                self.until == end,
                self.since == began,
                self.cats() == append_new(start, views(categories@).take(i as int)),
            decreases categories@.len() - i,
        {
            let c = &categories[i];
            assert(views(categories@).take(i + 1).drop_last() == views(categories@).take(i as int));
            assert(views(categories@).take(i + 1).last() == c@);
            if !contains_string(&self.categories, c) {
                self.categories.push(c.clone());
                assert(self.cats() == views(self.categories@));
                assert(views(self.categories@) =~= append_new(start, views(categories@).take(i as int)).push(c@));
            }
            i = i + 1;
        }
        assert(views(categories@).take(categories@.len() as int) == views(categories@));
    }

    /// Merge a new request into the block as it stands at this second.
    pub fn extend(&mut self, until: u64, categories: &[String])
        ensures
            exists|t: u64| extended(*old(self), *final(self), t, until, views(categories@)),
    {
        let t = now();
        self.extend_at(t, until, categories);
    }
}

impl Clone for State {
    fn clone(&self) -> (s: Self)
        ensures
            s.until == self.until,
            s.categories@ == self.categories@,
            s.since == self.since,
    {
        State { until: self.until, categories: copy_strings(&self.categories), since: self.since }
    }
}

impl Default for State {
    fn default() -> (s: Self)
        ensures
            s.is_default(),
    {
        State { until: 0, categories: Vec::new(), since: 0 }
    }
}

/// A block can only ever get longer or wider: merging a request never
/// moves the end of an active block earlier, never drops one of its
/// categories, and always covers what was asked for.
pub proof fn lemma_extend_never_shortens(old: State, new: State, now: u64, until: u64, names: Seq<Seq<char>>)
    requires
        extended(old, new, now, until, names),
    ensures
        new.until >= until,
        old.spec_active_at(now) ==> new.until >= old.until,
        old.spec_active_at(now) ==> forall|c: Seq<char>| old.cats().contains(c) ==> new.cats().contains(c),
        forall|c: Seq<char>| names.contains(c) ==> new.cats().contains(c),
{
    if old.spec_active_at(now) {
        lemma_append_new_keeps(old.cats(), names);
    }
}

/// `append_new(a, b)` keeps all of `a` and takes in all of `b`.
pub proof fn lemma_append_new_keeps(a: Seq<Seq<char>>, b: Seq<Seq<char>>)
    ensures
        forall|c: Seq<char>| #[trigger] a.contains(c) ==> append_new(a, b).contains(c),
        forall|c: Seq<char>| #[trigger] b.contains(c) ==> append_new(a, b).contains(c),
        append_new(a, b).len() >= a.len(),
        append_new(a, b).take(a.len() as int) == a,
    decreases b.len(),
{
    if b.len() > 0 {
        lemma_append_new_keeps(a, b.drop_last());
        let r = append_new(a, b.drop_last());
        assert forall|c: Seq<char>| a.contains(c) implies append_new(a, b).contains(c) by {
            assert(r.contains(c));
            if !r.contains(b.last()) {
                let k = choose|k: int| 0 <= k < r.len() && r[k] == c;
                assert(r.push(b.last())[k] == c);
            }
        }
        assert forall|c: Seq<char>| b.contains(c) implies append_new(a, b).contains(c) by {
            let k = choose|k: int| 0 <= k < b.len() && b[k] == c;
            if k < b.len() - 1 {
                assert(b.drop_last()[k] == c);
                assert(b.drop_last().contains(c));
                assert(r.contains(c));
                if !r.contains(b.last()) {
                    let j = choose|j: int| 0 <= j < r.len() && r[j] == c;
                    assert(r.push(b.last())[j] == c);
                }
            } else {
                if !r.contains(b.last()) {
                    assert(r.push(b.last())[r.len() as int] == c);
                }
            }
        }
        if !r.contains(b.last()) {
            assert(r.push(b.last()).take(a.len() as int) =~= r.take(a.len() as int));
        }
    } else {
        assert(a.take(a.len() as int) =~= a);
    }
}

} // verus!
