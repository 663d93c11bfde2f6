//! Which processes are on the list. Only these are ever signalled: exact
//! executable basenames, app bundles as whole path components.

use vstd::prelude::*;

use crate::blocklist::Category;
use crate::text::{chars_eq, chars_of, views};

verus! {

#[derive(Debug)]
pub struct Proc {
    pub pid: i32,
    /// Resolved executable path, e.g. /Applications/ChatGPT.app/Contents/MacOS/ChatGPT
    pub path: String,
    /// argv[0..2], for CLIs that run under an interpreter (`node …/codex`).
    pub argv: Vec<String>,
    /// Start time at enumeration; re-checked before a kill so a reused pid
    /// is never signalled.
    pub started: Option<(u64, u64)>,
}

impl Clone for Proc {
    fn clone(&self) -> (r: Self)
        ensures
            r.pid == self.pid,
            r.path@ == self.path@,
            r.argv@ == self.argv@,
            r.started == self.started,
    {
        Proc {
            pid: self.pid,
            path: self.path.clone(),
            argv: crate::text::copy_strings(&self.argv),
            started: self.started,
        }
    }
}

// ---------------------------------------------------------------------------
// Paths.
// ---------------------------------------------------------------------------

/// `s` cut at every `sep`.
pub open spec fn split_on(s: Seq<char>, sep: char) -> Seq<Seq<char>>
    decreases s.len(),
{
    if s.len() == 0 {
        seq![Seq::<char>::empty()]
    } else {
        let p = split_on(s.drop_last(), sep);
        if s.last() == sep {
            p.push(Seq::<char>::empty())
        } else {
            p.update(p.len() - 1, p.last().push(s.last()))
        }
    }
}

pub open spec fn dot() -> Seq<char> {
    seq!['.']
}

pub open spec fn dot_dot() -> Seq<char> {
    seq!['.', '.']
}

/// A path component that names something: not empty, not ".".
pub open spec fn meaningful(c: Seq<char>) -> bool {
    c.len() > 0 && c != dot()
}

pub open spec fn last_meaningful(cs: Seq<Seq<char>>) -> Option<Seq<char>>
    decreases cs.len(),
{
    if cs.len() == 0 {
        None
    } else if meaningful(cs.last()) {
        Some(cs.last())
    } else {
        last_meaningful(cs.drop_last())
    }
}

/// `Path::file_name`: the last component, unless the path ends in ".." or
/// has no component at all ("", "/", ".").
pub open spec fn file_name(p: Seq<char>) -> Option<Seq<char>> {
    match last_meaningful(split_on(p, '/')) {
        Some(c) => if c == dot_dot() {
            None
        } else {
            Some(c)
        },
        None => None,
    }
}

/// The file name of `p`, or `p` itself when it has none.
pub open spec fn basename_spec(p: Seq<char>) -> Seq<char> {
    match file_name(p) {
        Some(c) => c,
        None => p,
    }
}

proof fn lemma_split_nonempty(s: Seq<char>, sep: char)
    ensures
        split_on(s, sep).len() >= 1,
    decreases s.len(),
{
    if s.len() > 0 {
        lemma_split_nonempty(s.drop_last(), sep);
    }
}

proof fn lemma_is_dot(seg: Seq<char>, is_dot: bool, first_is_dot: bool)
    requires
        is_dot == first_is_dot,
        first_is_dot == (seg.len() == 1 && seg[0] == '.'),
    ensures
        is_dot == (seg == dot()),
{
    if seg.len() == 1 && seg[0] == '.' {
        assert(seg =~= dot());
    } else if seg.len() == 1 {
        assert(seg[0] != dot()[0]);
    }
}

fn basename(p: &str) -> (r: &str)
    ensures
        r@ == basename_spec(p@),
{
    let cs = chars_of(p);
    let n = cs.len();
    let mut start: usize = 0;
    let mut found: Option<(usize, usize)> = None;
    let mut i: usize = 0;
    proof {
        assert(cs@.take(0) =~= Seq::<char>::empty());
        assert(split_on(cs@.take(0), '/').drop_last() =~= Seq::<Seq<char>>::empty());
    }
    while i < n
        invariant
            n == cs@.len(),
            cs@ == p@,
            start <= i <= n,
            split_on(cs@.take(i as int), '/').len() >= 1,
            split_on(cs@.take(i as int), '/').last() == cs@.subrange(start as int, i as int),
            found matches Some((a, b)) ==> a <= b <= n && last_meaningful(
                split_on(cs@.take(i as int), '/').drop_last(),
            ) == Some(cs@.subrange(a as int, b as int)),
            found is None ==> last_meaningful(split_on(cs@.take(i as int), '/').drop_last()) is None,
        decreases n - i,
    {
        let ghost q = split_on(cs@.take(i as int), '/');
        proof {
            assert(cs@.take(i + 1).drop_last() =~= cs@.take(i as int));
            assert(cs@.take(i + 1).last() == cs@[i as int]);
        }
        if cs[i] == '/' {
            let len = i - start;
            let is_dot = len == 1 && cs[start] == '.';
            proof {
                let seg = cs@.subrange(start as int, i as int);
                lemma_is_dot(seg, is_dot, len == 1 && cs@[start as int] == '.');
                let q2 = split_on(cs@.take(i + 1), '/');
                assert(q2 == q.push(Seq::<char>::empty()));
                assert(q2.drop_last() =~= q);
                assert(q.drop_last() =~= q.drop_last());
            }
            if len > 0 && !is_dot {
                found = Some((start, i));
            }
            start = i + 1;
            proof {
                assert(cs@.subrange(start as int, i + 1) =~= Seq::<char>::empty());
            }
        } else {
            proof {
                let q2 = split_on(cs@.take(i + 1), '/');
                assert(q2.drop_last() =~= q.drop_last());
                assert(q2.last() =~= cs@.subrange(start as int, i + 1));
            }
        }
        i = i + 1;
    }
    proof {
        assert(cs@.take(n as int) =~= cs@);
    }
    // the last piece, after the last '/'
    let len = n - start;
    let is_dot = len == 1 && cs[start] == '.';
    proof {
        let seg = cs@.subrange(start as int, n as int);
        lemma_is_dot(seg, is_dot, len == 1 && cs@[start as int] == '.');
    }
    if len > 0 && !is_dot {
        found = Some((start, n));
    }
    match found {
        None => p,
        Some((a, b)) => {
            let is_up = b - a == 2 && cs[a] == '.' && cs[a + 1] == '.';
            proof {
                let seg = cs@.subrange(a as int, b as int);
                if b - a == 2 {
                    assert(is_up == (seg =~= dot_dot()));
                } else {
                    assert(seg.len() != 2);
                }
            }
            if is_up {
                p
            } else {
                p.substring_char(a, b)
            }
        },
    }
}

// ---------------------------------------------------------------------------
// Matching.
// ---------------------------------------------------------------------------

/// Runtimes that execute a script named in argv[1]. Only for these do we
/// look past the executable: `node .../codex` is the codex CLI, but
/// `vim codex` is someone editing a file called codex, and must live.
pub open spec fn interpreters() -> Seq<Seq<char>> {
    seq![
        "node"@, "bun"@, "deno"@, "python"@, "python3"@, "ruby"@, "perl"@, "sh"@, "bash"@, "zsh"@,
    ]
}

fn interpreter_names() -> (v: Vec<&'static str>)
    ensures
        v@.len() == interpreters().len(),
        forall|i: int| 0 <= i < v@.len() ==> (#[trigger] v@[i])@ == interpreters()[i],
{
    let v: Vec<&'static str> = vec![
        "node", "bun", "deno", "python", "python3", "ruby", "perl", "sh", "bash", "zsh",
    ];
    v
}

/// The name this process answers to: its executable's basename, or, for an
/// interpreter, the basename of the script it is running.
pub open spec fn effective_name_spec(path: Seq<char>, argv: Seq<Seq<char>>) -> Seq<char> {
    let exe = basename_spec(path);
    if interpreters().contains(exe) && argv.len() > 1 {
        basename_spec(argv[1])
    } else {
        exe
    }
}

/// `c` is one of the '/'-separated components of `path`.
pub open spec fn has_component(path: Seq<char>, c: Seq<char>) -> bool {
    split_on(path, '/').contains(c)
}

/// The process belongs to the category: one of its apps is a component of
/// the executable path, or one of its processes is the effective name.
pub open spec fn matches_spec(path: Seq<char>, argv: Seq<Seq<char>>, cat: Category) -> bool {
    (exists|i: int| 0 <= i < cat.field(2).len() && has_component(path, #[trigger] cat.field(2)[i]))
        || cat.field(1).contains(effective_name_spec(path, argv))
}

/// The name this process answers to: its executable's basename, or, for an
/// interpreter, the basename of the script it is running.
pub fn effective_name(p: &Proc) -> (r: &str)
    ensures
        r@ == effective_name_spec(p.path@, views(p.argv@)),
{
    let exe = basename(p.path.as_str());
    let ex = chars_of(exe);
    let interp = interpreter_names();
    let mut known = false;
    let mut i: usize = 0;
    while i < interp.len()
        invariant
            i <= interp@.len(),
            ex@ == exe@,
            interp@.len() == interpreters().len(),
            forall|j: int| 0 <= j < interp@.len() ==> (#[trigger] interp@[j])@ == interpreters()[j],
            known == exists|j: int| 0 <= j < i && interpreters()[j] == exe@,
        decreases interp@.len() - i,
    {
        let name = chars_of(interp[i]);
        if chars_eq(&ex, &name) {
            known = true;
        }
        i = i + 1;
    }
    proof {
        if known {
            let j = choose|j: int| 0 <= j < interp@.len() && interpreters()[j] == exe@;
            assert(interpreters().contains(exe@));
        } else {
            assert(!interpreters().contains(exe@));
        }
    }
    if known && p.argv.len() > 1 {
        assert(views(p.argv@)[1] == p.argv@[1]@);
        return basename(p.argv[1].as_str());
    }
    exe
}

/// Whether `c` is one of the '/'-separated components of `path`.
fn component_of(path: &Vec<char>, c: &Vec<char>) -> (r: bool)
    ensures
        r == has_component(path@, c@),
{
    let n = path.len();
    let mut cur: Vec<char> = Vec::new();
    let mut hit = false;
    let mut i: usize = 0;
    while i < n
        invariant
            n == path@.len(),
            i <= n,
            split_on(path@.take(i as int), '/').len() >= 1,
            cur@ == split_on(path@.take(i as int), '/').last(),
            hit == split_on(path@.take(i as int), '/').drop_last().contains(c@),
        decreases n - i,
    {
        let ghost q = split_on(path@.take(i as int), '/');
        proof {
            assert(path@.take(i + 1).drop_last() =~= path@.take(i as int));
            assert(path@.take(i + 1).last() == path@[i as int]);
        }
        if path[i] == '/' {
            let same = chars_eq(&cur, c);
            proof {
                let q2 = split_on(path@.take(i + 1), '/');
                assert(q2.drop_last() =~= q);
                assert(q =~= q.drop_last().push(q.last()));
                assert(q.contains(c@) <==> (q.drop_last().contains(c@) || q.last() == c@)) by {
                    if q.contains(c@) {
                        let k = choose|k: int| 0 <= k < q.len() && q[k] == c@;
                        if k < q.len() - 1 {
                            assert(q.drop_last()[k] == c@);
                        }
                    }
                    if q.drop_last().contains(c@) {
                        let k = choose|k: int| 0 <= k < q.drop_last().len() && q.drop_last()[k] == c@;
                        assert(q[k] == c@);
                    }
                }
            }
            hit = hit || same;
            cur.clear();
        } else {
            cur.push(path[i]);
            proof {
                let q2 = split_on(path@.take(i + 1), '/');
                assert(q2.drop_last() =~= q.drop_last());
            }
        }
        i = i + 1;
    }
    proof {
        assert(path@.take(n as int) =~= path@);
        let q = split_on(path@, '/');
        assert(q =~= q.drop_last().push(q.last()));
        assert(q.contains(c@) <==> (q.drop_last().contains(c@) || q.last() == c@)) by {
            if q.contains(c@) {
                let k = choose|k: int| 0 <= k < q.len() && q[k] == c@;
                if k < q.len() - 1 {
                    assert(q.drop_last()[k] == c@);
                }
            }
            if q.drop_last().contains(c@) {
                let k = choose|k: int| 0 <= k < q.drop_last().len() && q.drop_last()[k] == c@;
                assert(q[k] == c@);
            }
        }
    }
    let last = chars_eq(&cur, c);
    hit || last
}

/// Does this process belong to the selected categories?
pub fn matches(p: &Proc, cat: &Category) -> (r: bool)
    ensures
        r == matches_spec(p.path@, views(p.argv@), *cat),
{
    let path = chars_of(p.path.as_str());
    let mut i: usize = 0;
    while i < cat.apps.len()
        invariant
            i <= cat.apps@.len(),
            path@ == p.path@,
            forall|j: int| 0 <= j < i ==> !has_component(p.path@, #[trigger] cat.field(2)[j]),
        decreases cat.apps@.len() - i,
    {
        let app = chars_of(cat.apps[i].as_str());
        assert(cat.field(2)[i as int] == app@);
        if component_of(&path, &app) {
            return true;
        }
        i = i + 1;
    }
    let name = effective_name(p);
    let name_s = String::from_str(name);
    crate::text::contains_string(&cat.processes, &name_s)
}

/// Whether this process may be stopped: it is not us, it is on the list, and
/// its start time is known so that a reused pid can be told apart.
pub fn is_target(p: &Proc, me: i32, cat: &Category) -> (r: bool)
    ensures
        r == (p.pid != me && matches_spec(p.path@, views(p.argv@), *cat) && p.started is Some),
{
    p.pid != me && matches(p, cat) && p.started.is_some()
}

// ---------------------------------------------------------------------------
// KERN_PROCARGS2.
// ---------------------------------------------------------------------------

/// std's `String::from_utf8_lossy`: invalid sequences become U+FFFD.
pub uninterp spec fn utf8_lossy(b: Seq<u8>) -> Seq<char>;

/// std's `String::from_utf8_lossy`, owned.
#[verifier::external_body]
fn lossy_string(b: &[u8]) -> (r: String)
    ensures
        r@ == utf8_lossy(b@),
{
    String::from_utf8_lossy(b).into_owned()
}

/// Four bytes, lowest first, read as a two's-complement 32-bit integer.
pub open spec fn i32_from_bytes(lo: u8, b1: u8, b2: u8, hi: u8) -> int {
    let u = lo + 256 * b1 + 65536 * b2 + 16777216 * hi;
    if u >= 0x8000_0000 {
        u - 0x1_0000_0000
    } else {
        u
    }
}

/// std's `i32::from_ne_bytes`: the bytes in the machine's own order, which
/// is little-endian or big-endian; which of the two is not stated here.
#[verifier::external_body]
fn native_i32(b0: u8, b1: u8, b2: u8, b3: u8) -> (r: i32)
    ensures
        r == i32_from_bytes(b0, b1, b2, b3) || r == i32_from_bytes(b3, b2, b1, b0),
{
    i32::from_ne_bytes([b0, b1, b2, b3])
}

/// The first NUL at or after `i`.
pub open spec fn first_nul(b: Seq<u8>, i: int) -> Option<int>
    decreases b.len() - i,
{
    if i < 0 || i >= b.len() {
        None
    } else if b[i] == 0 {
        Some(i)
    } else {
        first_nul(b, i + 1)
    }
}

/// The first position at or after `i` that is not NUL padding.
pub open spec fn skip_nuls(b: Seq<u8>, i: int) -> int
    decreases b.len() - i,
{
    if 0 <= i < b.len() && b[i] == 0 {
        skip_nuls(b, i + 1)
    } else {
        i
    }
}

/// `count` NUL-terminated strings from `pos` on.
pub open spec fn strings_from(b: Seq<u8>, pos: int, count: nat) -> Option<Seq<Seq<char>>>
    decreases count,
{
    if count == 0 {
        Some(Seq::<Seq<char>>::empty())
    } else {
        match first_nul(b, pos) {
            None => None,
            Some(e) => match strings_from(b, e + 1, (count - 1) as nat) {
                None => None,
                Some(rest) => Some(seq![utf8_lossy(b.subrange(pos, e))] + rest),
            },
        }
    }
}

/// Layout: i32 argc, NUL-terminated exec path, NUL padding, then argv
/// strings; the first `min(argc, 2)` of those.
pub open spec fn procargs(b: Seq<u8>, argc: i32) -> Option<Seq<Seq<char>>> {
    if b.len() < 4 {
        None
    } else {
        match first_nul(b, 4) {
            None => None,
            Some(e) => {
                let n: nat = if argc <= 0 {
                    0
                } else if argc >= 2 {
                    2
                } else {
                    1
                };
                strings_from(b, skip_nuls(b, e + 1), n)
            },
        }
    }
}

fn find_nul(b: &[u8], from: usize) -> (r: Option<usize>)
    ensures
        r matches Some(e) ==> first_nul(b@, from as int) == Some(e as int) && from <= e < b.len(),
        r is None ==> first_nul(b@, from as int) is None,
{
    let mut i = from;
    while i < b.len()
        invariant
            from <= i,
            first_nul(b@, from as int) == first_nul(b@, i as int),
            forall|j: int| from <= j < i ==> b@[j] != 0,
        decreases b@.len() - i,
    {
        if b[i] == 0 {
            return Some(i);
        }
        i = i + 1;
    }
    None
}

/// The bytes `b[from..to]`.
fn bytes_between(b: &[u8], from: usize, to: usize) -> (r: Vec<u8>)
    requires
        from <= to <= b@.len(),
    ensures
        r@ == b@.subrange(from as int, to as int),
{
    let mut r: Vec<u8> = Vec::new();
    let mut i = from;
    while i < to
        invariant
            from <= i <= to,
            to <= b@.len(),
            r@ == b@.subrange(from as int, i as int),
        decreases to - i,
    {
        r.push(b[i]);
        assert(b@.subrange(from as int, i + 1) =~= b@.subrange(from as int, i as int).push(b@[i as int]));
        i = i + 1;
    }
    r
}

/// The argv strings of a KERN_PROCARGS2 buffer whose argc is `argc`.
pub fn procargs_strings(buf: &[u8], argc: i32) -> (r: Option<Vec<String>>)
    ensures
        match r {
            Some(v) => procargs(buf@, argc) == Some(views(v@)),
            None => procargs(buf@, argc) is None,
        },
{
    if buf.len() < 4 {
        return None;
    }
    let e = match find_nul(buf, 4) {
        Some(e) => e,
        None => return None,
    };
    let mut pos = e + 1;
    while pos < buf.len() && buf[pos] == 0
        invariant
            e < pos <= buf@.len(),
            skip_nuls(buf@, e + 1) == skip_nuls(buf@, pos as int),
        decreases buf@.len() - pos,
    {
        pos = pos + 1;
    }
    let count: usize = if argc <= 0 {
        0
    } else if argc >= 2 {
        2
    } else {
        1
    };
    let mut out: Vec<String> = Vec::new();
    proof {
        assert(skip_nuls(buf@, pos as int) == pos);
        assert(first_nul(buf@, 4) == Some(e as int));
        assert(views(out@) =~= Seq::<Seq<char>>::empty());
        match strings_from(buf@, pos as int, count as nat) {
            Some(rest) => {
                assert(views(out@) + rest =~= rest);
            },
            None => {},
        }
    }
    let mut k: usize = 0;
    while k < count
        invariant
            k <= count,
            count <= 2,
            pos <= buf.len(),
            procargs(buf@, argc) == match strings_from(buf@, pos as int, (count - k) as nat) {
                Some(rest) => Some(views(out@) + rest),
                None => None,
            },
        decreases count - k,
    {
        let end = match find_nul(buf, pos) {
            Some(end) => end,
            None => {
                assert(strings_from(buf@, pos as int, (count - k) as nat) is None);
                return None;
            },
        };
        let bytes = bytes_between(buf, pos, end);
        let s = lossy_string(bytes.as_slice());
        proof {
            let rest = strings_from(buf@, end + 1, (count - k - 1) as nat);
            assert(first_nul(buf@, pos as int) == Some(end as int));
            assert(strings_from(buf@, pos as int, (count - k) as nat) == match rest {
                None => None,
                Some(r) => Some(seq![utf8_lossy(buf@.subrange(pos as int, end as int))] + r),
            });
            assert(views(out@.push(s)) =~= views(out@).push(s@));
            match rest {
                Some(r) => {
                    assert(views(out@).push(s@) + r =~= views(out@) + (seq![s@] + r));
                },
                None => {},
            }
        }
        out.push(s);
        pos = end + 1;
        k = k + 1;
    }
    proof {
        assert(views(out@) + Seq::<Seq<char>>::empty() =~= views(out@));
    }
    Some(out)
}

/// The first two argv entries of a KERN_PROCARGS2 buffer.
pub fn parse_procargs2(buf: &[u8]) -> (r: Option<Vec<String>>)
    ensures
        buf@.len() < 4 ==> r is None,
        buf@.len() >= 4 ==> exists|argc: i32|
            {
                &&& (argc == i32_from_bytes(buf@[0], buf@[1], buf@[2], buf@[3]) || argc
                    == i32_from_bytes(buf@[3], buf@[2], buf@[1], buf@[0]))
                &&& match r {
                    Some(v) => procargs(buf@, argc) == Some(views(v@)),
                    None => procargs(buf@, argc) is None,
                }
            },
{
    if buf.len() < 4 {
        return None;
    }
    let argc = native_i32(buf[0], buf[1], buf[2], buf[3]);
    procargs_strings(buf, argc)
}

} // verus!
