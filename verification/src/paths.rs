//! Where things live. A non-empty prefix relocates everything for tests and
//! for running the daemon unprivileged; the real install uses "".

use vstd::prelude::*;

use crate::text::{chars_of, push_all, string_of};

verus! {

pub struct Paths {
    pub prefix: String,
}

/// All leading '/' removed.
pub open spec fn trim_slashes(s: Seq<char>) -> Seq<char>
    decreases s.len(),
{
    if s.len() > 0 && s[0] == '/' {
        trim_slashes(s.drop_first())
    } else {
        s
    }
}

/// `PathBuf::push` on Unix: an absolute path replaces the base; otherwise a
/// '/' is put between the two unless the base is empty or already ends in one.
pub open spec fn join_path(base: Seq<char>, rel: Seq<char>) -> Seq<char> {
    if rel.len() > 0 && rel[0] == '/' {
        rel
    } else if base.len() == 0 || base.last() == '/' {
        base + rel
    } else {
        base + seq!['/'] + rel
    }
}

/// `base.join(rel)`.
fn join(base: &[char], rel: &[char]) -> (r: Vec<char>)
    ensures
        r@ == join_path(base@, rel@),
{
    let mut out: Vec<char> = Vec::new();
    if rel.len() > 0 && rel[0] == '/' {
        push_all(&mut out, rel);
        return out;
    }
    push_all(&mut out, base);
    if base.len() > 0 && base[base.len() - 1] != '/' {
        out.push('/');
    }
    push_all(&mut out, rel);
    out
}

impl Paths {
    pub fn new(prefix: String) -> (p: Self)
        ensures
            p.prefix@ == prefix@,
    {
        Paths { prefix }
    }

    /// True when relocated: no root required, no immutable flags, no launchd.
    pub fn is_test(&self) -> (r: bool)
        ensures
            r == (self.prefix@.len() > 0),
    {
        !self.prefix.as_str().is_empty()
    }

    /// Where an absolute path of the real install lives: itself without a
    /// prefix, and under the prefix with one.
    pub open spec fn place(&self, abs: Seq<char>) -> Seq<char> {
        if self.prefix@.len() == 0 {
            abs
        } else {
            join_path(self.prefix@, trim_slashes(abs))
        }
    }

    fn p(&self, abs: &str) -> (r: String)
        ensures
            r@ == self.place(abs@),
    {
        if self.prefix.as_str().is_empty() {
            return String::from_str(abs);
        }
        let a = chars_of(abs);
        let mut i: usize = 0;
        assert(a@.skip(0) =~= a@);
        while i < a.len() && a[i] == '/'
            invariant
                i <= a@.len(),
                trim_slashes(a@) == trim_slashes(a@.skip(i as int)),
            decreases a@.len() - i,
        {
            assert(a@.skip(i as int).drop_first() =~= a@.skip(i + 1));
            i = i + 1;
        }
        let mut rel: Vec<char> = Vec::new();
        let mut j = i;
        while j < a.len()
            invariant
                i <= j <= a@.len(),
                rel@ == a@.subrange(i as int, j as int),
            decreases a@.len() - j,
        {
            rel.push(a[j]);
            assert(a@.subrange(i as int, j + 1) =~= a@.subrange(i as int, j as int).push(a@[j as int]));
            j = j + 1;
        }
        proof {
            assert(a@.skip(0) =~= a@);
            assert(rel@ =~= a@.skip(i as int));
        }
        let base = chars_of(self.prefix.as_str());
        string_of(&join(&base, &rel))
    }

    pub fn state_dir(&self) -> (r: String)
        ensures
            r@ == self.place(crate::state::DIR@),
    {
        self.p(crate::state::DIR)
    }

    pub fn state(&self) -> (r: String)
        ensures
            r@ == self.place(crate::state::STATE@),
    {
        self.p(crate::state::STATE)
    }

    pub fn socket(&self) -> (r: String)
        ensures
            r@ == self.place(crate::state::SOCKET@),
    {
        self.p(crate::state::SOCKET)
    }

    pub fn hosts(&self) -> (r: String)
        ensures
            r@ == self.place(crate::hosts::PATH@),
    {
        self.p(crate::hosts::PATH)
    }

    pub fn helper(&self) -> (r: String)
        ensures
            r@ == self.place(crate::state::HELPER@),
    {
        self.p(crate::state::HELPER)
    }

    pub fn plist(&self) -> (r: String)
        ensures
            r@ == self.place(crate::state::PLIST@),
    {
        self.p(crate::state::PLIST)
    }

    pub fn plist_backup(&self) -> (r: String)
        ensures
            r@ == self.place(crate::state::PLIST_BACKUP@),
    {
        self.p(crate::state::PLIST_BACKUP)
    }

    pub fn blocklist_override(&self) -> (r: String)
        ensures
            r@ == join_path(self.place(crate::state::DIR@), "blocklist.toml"@),
    {
        let dir = chars_of(self.state_dir().as_str());
        let name = chars_of("blocklist.toml");
        string_of(&join(&dir, &name))
    }
}

proof fn lemma_trim_no_slash(s: Seq<char>)
    ensures
        trim_slashes(s).len() == 0 || trim_slashes(s)[0] != '/',
    decreases s.len(),
{
    if s.len() > 0 && s[0] == '/' {
        lemma_trim_no_slash(s.drop_first());
    }
}

/// Relocation is complete: under a prefix, every path the daemon touches
/// lies inside it.
pub proof fn lemma_relocated(paths: Paths, abs: Seq<char>)
    ensures
        paths.place(abs).len() >= paths.prefix@.len(),
        paths.place(abs).subrange(0, paths.prefix@.len() as int) == paths.prefix@,
{
    lemma_trim_no_slash(abs);
    let b = paths.prefix@;
    let r = paths.place(abs);
    if b.len() == 0 {
        assert(r.subrange(0, 0) =~= b);
    } else {
        assert(r.subrange(0, b.len() as int) =~= b);
    }
}

} // verus!
