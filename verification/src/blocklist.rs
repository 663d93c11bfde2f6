//! The curated list of what "them" means, and the rules every list must
//! meet before the daemon will use it.

use vstd::prelude::*;

use crate::text::{
    debug_quoted, debug_text, chars_ends_with, chars_of, contains_string, ends_with, insert_sorted, lex_lt,
    lemma_lex_irreflexive, lemma_lex_total, lemma_lex_transitive, lemma_sorted_unique, strictly_sorted, views,
};

verus! {

pub const BLOCKLIST_URL: &'static str =
    "https://raw.githubusercontent.com/rickhallett/tto/main/assets/blocklist.toml";

#[derive(Debug)]
pub struct Category {
    pub title: String,
    pub blurb: String,
    pub domains: Vec<String>,
    /// Exact executable basenames (CLIs, servers).
    pub processes: Vec<String>,
    /// App bundle names; matched as a path component (`…/ChatGPT.app/…`).
    pub apps: Vec<String>,
}

impl Category {
    /// The domains (0), processes (1) or apps (2), as text.
    pub open spec fn field(&self, which: int) -> Seq<Seq<char>> {
        if which == 0 {
            views(self.domains@)
        } else if which == 1 {
            views(self.processes@)
        } else {
            views(self.apps@)
        }
    }
}

impl Default for Category {
    fn default() -> (c: Self)
        ensures
            c.title@.len() == 0,
            c.blurb@.len() == 0,
            c.domains@.len() == 0,
            c.processes@.len() == 0,
            c.apps@.len() == 0,
    {
        Category {
            title: String::new(),
            blurb: String::new(),
            domains: Vec::new(),
            processes: Vec::new(),
            apps: Vec::new(),
        }
    }
}

// ---------------------------------------------------------------------------
// The precision rules (BLOCKLIST-POLICY.md, rules 1, 2 and 4).
// ---------------------------------------------------------------------------

/// Domains that are infrastructure for far more than chatbots. A list that
/// names one of these, or any suffix of one, is refused outright, whatever
/// its version says.
pub open spec fn never_block_list() -> Seq<Seq<char>> {
    seq![
        "google.com"@, "googleapis.com"@, "gstatic.com"@, "googleusercontent.com"@,
        "youtube.com"@, "microsoft.com"@, "live.com"@, "office.com"@, "azure.com"@,
        "windows.net"@, "office365.com"@, "apple.com"@, "icloud.com"@, "amazonaws.com"@,
        "amazon.com"@, "cloudfront.net"@, "cloudflare.com"@, "github.com"@,
        "githubusercontent.com"@, "githubassets.com"@, "gitlab.com"@, "cursor.sh"@,
        "cursor.com"@, "vercel.app"@, "vercel.com"@, "netlify.app"@, "fastly.net"@,
        "akamai.net"@, "openai.com"@, "anthropic.com"@, "x.com"@, "twitter.com"@,
        "facebook.com"@, "meta.com"@, "slack.com"@, "notion.so"@, "zoom.us"@,
        "dropbox.com"@, "figma.com"@,
    ]
}

pub fn never_block() -> (v: Vec<&'static str>)
    ensures
        v@.len() == never_block_list().len(),
        forall|i: int| 0 <= i < v@.len() ==> (#[trigger] v@[i])@ == never_block_list()[i],
{
    let v: Vec<&'static str> = vec![
        "google.com", "googleapis.com", "gstatic.com", "googleusercontent.com",
        "youtube.com", "microsoft.com", "live.com", "office.com", "azure.com",
        "windows.net", "office365.com", "apple.com", "icloud.com", "amazonaws.com",
        "amazon.com", "cloudfront.net", "cloudflare.com", "github.com",
        "githubusercontent.com", "githubassets.com", "gitlab.com", "cursor.sh",
        "cursor.com", "vercel.app", "vercel.com", "netlify.app", "fastly.net",
        "akamai.net", "openai.com", "anthropic.com", "x.com", "twitter.com",
        "facebook.com", "meta.com", "slack.com", "notion.so", "zoom.us",
        "dropbox.com", "figma.com",
    ];
    v
}

/// Lowercase ASCII letters, digits, '.' and '-': nothing that could carry a
/// second line, a comment or a path into the hosts file.
pub open spec fn host_char(c: char) -> bool {
    ('a' <= c && c <= 'z') || ('0' <= c && c <= '9') || c == '.' || c == '-'
}

pub open spec fn is_hostname(d: Seq<char>) -> bool {
    &&& d.len() > 0
    &&& d.contains('.')
    &&& d[0] != '.'
    &&& d.last() != '.'
    &&& forall|i: int| 0 <= i < d.len() ==> host_char(#[trigger] d[i])
}

/// Spelled out: non-empty, with a '.', neither starting nor ending with one,
/// and made only of ASCII lower-case letters, digits, '.' and '-'.
pub open spec fn plain_hostname(d: Seq<char>) -> bool {
    &&& d.len() > 0
    &&& d.contains('.')
    &&& d[0] != '.'
    &&& d[d.len() - 1] != '.'
    &&& forall|i: int|
        0 <= i < d.len() ==> (('a' <= #[trigger] d[i] && d[i] <= 'z') || ('0' <= d[i] && d[i] <= '9')
            || d[i] == '.' || d[i] == '-')
}

/// The hostname rule accepts exactly the plain hostnames: every non-empty
/// string of ASCII lower-case letters, digits, '.' and '-' that holds a '.'
/// and neither starts nor ends with one, and nothing else. In particular a
/// '-' is allowed anywhere such a name allows it, as in
/// "copilot-proxy.githubusercontent.com".
pub proof fn lemma_hostname_rule(d: Seq<char>)
    ensures
        is_hostname(d) <==> (d.len() > 0 && d.contains('.') && d[0] != '.' && d[d.len() - 1] != '.'
            && forall|i: int|
            0 <= i < d.len() ==> (('a' <= #[trigger] d[i] && d[i] <= 'z') || ('0' <= d[i] && d[i]
                <= '9') || d[i] == '.' || d[i] == '-')),
        is_hostname(d) <==> plain_hostname(d),
{
}

/// A plain hostname that would block no infrastructure domain breaks no
/// domain rule.
pub proof fn lemma_plain_domain_passes(d: Seq<char>)
    requires
        d.len() > 0,
        d.contains('.'),
        d[0] != '.',
        d[d.len() - 1] != '.',
        forall|i: int|
            0 <= i < d.len() ==> (('a' <= #[trigger] d[i] && d[i] <= 'z') || ('0' <= d[i] && d[i] <= '9')
                || d[i] == '.' || d[i] == '-'),
        forall|n: int| 0 <= n < never_block_list().len() ==> !covers(d, #[trigger] never_block_list()[n]),
    ensures
        domain_fault(d) is None,
{
    lemma_hostname_rule(d);
    lemma_infra_none_rev(d, 0);
}

/// Blocking `d` would block `n`: it is `n`, or a parent domain of it.
pub open spec fn covers(d: Seq<char>, n: Seq<char>) -> bool {
    d == n || ends_with(n, seq!['.'] + d)
}

/// The first infrastructure domain from position `i` on that `d` would block.
pub open spec fn infra_from(d: Seq<char>, i: int) -> Option<Seq<char>>
    decreases never_block_list().len() - i,
{
    if i < 0 || i >= never_block_list().len() {
        None
    } else if covers(d, never_block_list()[i]) {
        Some(never_block_list()[i])
    } else {
        infra_from(d, i + 1)
    }
}

/// `char::is_control`: the general category Cc.
pub open spec fn is_control(c: char) -> bool {
    (c as u32) <= 0x1f || (0x7f <= (c as u32) && (c as u32) <= 0x9f)
}

/// An executable or bundle name: non-empty, no path, no wildcard.
pub open spec fn good_name(p: Seq<char>) -> bool {
    &&& p.len() > 0
    &&& forall|i: int| 0 <= i < p.len() ==> {
        &&& #[trigger] p[i] != '/'
        &&& p[i] != '*'
        &&& !is_control(p[i])
    }
}

#[derive(Debug, Clone, Copy, PartialEq, Eq, Structural)]
pub enum Fault {
    /// Not a plain hostname.
    BadDomain,
    /// Would block an infrastructure domain.
    Infrastructure,
    /// Not a plain executable or bundle name.
    BadProcess,
}

/// Why a list was refused: the rule, the category, the entry, and for
/// infrastructure, the domain it would have blocked.
#[derive(Debug)]
pub struct ListError {
    pub fault: Fault,
    pub category: String,
    pub item: String,
    pub blocks: String,
}

/// A refusal as plain values: rule, entry, blocked domain.
pub type FaultAt = (Fault, Seq<char>, Seq<char>);

pub open spec fn domain_fault(d: Seq<char>) -> Option<FaultAt> {
    if !is_hostname(d) {
        Some((Fault::BadDomain, d, Seq::<char>::empty()))
    } else {
        match infra_from(d, 0) {
            Some(n) => Some((Fault::Infrastructure, d, n)),
            None => None,
        }
    }
}

pub open spec fn domains_fault(ds: Seq<Seq<char>>, i: int) -> Option<FaultAt>
    decreases ds.len() - i,
{
    if i < 0 || i >= ds.len() {
        None
    } else {
        match domain_fault(ds[i]) {
            Some(f) => Some(f),
            None => domains_fault(ds, i + 1),
        }
    }
}

pub open spec fn names_fault(ps: Seq<Seq<char>>, i: int) -> Option<FaultAt>
    decreases ps.len() - i,
{
    if i < 0 || i >= ps.len() {
        None
    } else if !good_name(ps[i]) {
        Some((Fault::BadProcess, ps[i], Seq::<char>::empty()))
    } else {
        names_fault(ps, i + 1)
    }
}

/// The first broken rule in a category: its domains in order, then its
/// processes, then its apps.
pub open spec fn category_fault(c: Category) -> Option<FaultAt> {
    match domains_fault(c.field(0), 0) {
        Some(f) => Some(f),
        None => names_fault(c.field(1) + c.field(2), 0),
    }
}

/// The first broken rule from category `k` on, with that category's name.
pub open spec fn list_fault(keys: Seq<Seq<char>>, cats: Seq<Category>, k: int) -> Option<
    (Seq<char>, FaultAt),
>
    decreases keys.len() - k,
{
    if k < 0 || k >= keys.len() || k >= cats.len() {
        None
    } else {
        match category_fault(cats[k]) {
            Some(f) => Some((keys[k], f)),
            None => list_fault(keys, cats, k + 1),
        }
    }
}

// ---------------------------------------------------------------------------
// Selection.
// ---------------------------------------------------------------------------

pub open spec fn everything() -> Seq<char> {
    seq!['e', 'v', 'e', 'r', 'y', 't', 'h', 'i', 'n', 'g']
}

/// A category is selected when named, or when "everything" is.
pub open spec fn chosen(names: Seq<Seq<char>>, key: Seq<char>) -> bool {
    names.contains(key) || names.contains(everything())
}

/// `y` is listed in field `which` of some selected category before `upto`.
pub open spec fn picked(
    keys: Seq<Seq<char>>,
    cats: Seq<Category>,
    names: Seq<Seq<char>>,
    which: int,
    y: Seq<char>,
    upto: int,
) -> bool {
    exists|k: int|
        0 <= k < upto && chosen(names, keys[k]) && (#[trigger] cats[k].field(which)).contains(y)
}

// ---------------------------------------------------------------------------
// The list.
// ---------------------------------------------------------------------------

pub open spec fn keys_of(es: Seq<(String, Category)>) -> Seq<Seq<char>> {
    es.map_values(|e: (String, Category)| e.0@)
}

#[derive(Debug)]
pub struct Blocklist {
    version: u32,
    /// Categories by name, in name order, each name once.
    entries: Vec<(String, Category)>,
}

impl Blocklist {
    pub closed spec fn version_spec(&self) -> u32 {
        self.version
    }

    /// The category names, in order.
    pub closed spec fn keys(&self) -> Seq<Seq<char>> {
        keys_of(self.entries@)
    }

    /// The categories, in the order of their names.
    pub closed spec fn cats(&self) -> Seq<Category> {
        self.entries@.map_values(|e: (String, Category)| e.1)
    }

    #[verifier::type_invariant]
    closed spec fn inv(&self) -> bool {
        strictly_sorted(self.keys())
    }

    /// An empty list of the given version.
    pub fn new(version: u32) -> (b: Self)
        ensures
            b.version_spec() == version,
            b.keys().len() == 0,
            b.cats().len() == 0,
    {
        let b = Blocklist { version, entries: Vec::new() };
        assert(b.keys() =~= Seq::<Seq<char>>::empty());
        b
    }

    pub fn version(&self) -> (v: u32)
        ensures
            v == self.version_spec(),
    {
        self.version
    }

    pub fn len(&self) -> (n: usize)
        ensures
            n == self.keys().len(),
            n == self.cats().len(),
    {
        self.entries.len()
    }

    /// The `i`th category and its name, in name order.
    pub fn entry(&self, i: usize) -> (r: (&String, &Category))
        requires
            i < self.keys().len(),
        ensures
            r.0@ == self.keys()[i as int],
            *r.1 == self.cats()[i as int],
    {
        let e = &self.entries[i];
        (&e.0, &e.1)
    }

    /// Sets the category `name`, replacing one of the same name.
    pub fn insert(&mut self, name: String, cat: Category)
        ensures
            final(self).version_spec() == old(self).version_spec(),
            strictly_sorted(final(self).keys()),
            forall|y: Seq<char>|
                final(self).keys().contains(y) <==> (old(self).keys().contains(y) || y == name@),
            forall|i: int|
                0 <= i < final(self).keys().len() && final(self).keys()[i] == name@
                    ==> final(self).cats()[i] == cat,
            forall|i: int, j: int|
                0 <= i < final(self).keys().len() && 0 <= j < old(self).keys().len()
                    && final(self).keys()[i] == old(self).keys()[j] && old(self).keys()[j] != name@
                    ==> final(self).cats()[i] == old(self).cats()[j],
            final(self).keys().len() == final(self).cats().len(),
    {
        proof {
            use_type_invariant(&*self);
        }
        let ghost old_keys = self.keys();
        let ghost old_cats = self.cats();
        let xs = chars_of(name.as_str());
        let mut i: usize = 0;
        let mut go = true;
        while go && i < self.entries.len()
            invariant
                i <= self.entries@.len(),
                xs@ == name@,
                self.keys() == old_keys,
                self.cats() == old_cats,
                strictly_sorted(old_keys),
                old_keys.len() == self.entries@.len(),
                forall|j: int| 0 <= j < i ==> lex_lt(#[trigger] old_keys[j], name@),
                !go ==> i < self.entries@.len() && !lex_lt(old_keys[i as int], name@),
            decreases self.entries@.len() - i + if go { 1int } else { 0int },
        {
            let ks = chars_of(self.entries[i].0.as_str());
            assert(old_keys[i as int] == self.entries@[i as int].0@);
            if crate::text::chars_lt(&ks, &xs) {
                i = i + 1;
            } else {
                go = false;
            }
        }
        let n = self.entries.len();
        if i < n && self.entries[i].0 == name {
            assert(old_keys[i as int] == name@);
            let mut entries: Vec<(String, Category)> = Vec::new();
            std::mem::swap(&mut entries, &mut self.entries);
            let ghost nm = name@;
            let ghost ct = cat;
            entries.set(i, (name, cat));
            assert(keys_of(entries@) =~= old_keys);
            self.entries = entries;
            proof {
                assert(self.keys() =~= old_keys);
                assert forall|y: Seq<char>| self.keys().contains(y) <==> (old_keys.contains(y) || y == nm) by {
                    if y == nm {
                        assert(old_keys[i as int] == y);
                    }
                }
                assert forall|a: int| 0 <= a < self.keys().len() && self.keys()[a] == nm implies self.cats()[a] == ct by {
                    if a != i {
                        lemma_lex_irreflexive(old_keys[a]);
                        if a < i {
                            assert(lex_lt(old_keys[a], old_keys[i as int]));
                        } else {
                            assert(lex_lt(old_keys[i as int], old_keys[a]));
                        }
                    }
                }
                assert forall|a: int, b: int| 0 <= a < self.keys().len() && 0 <= b < old_keys.len()
                    && self.keys()[a] == old_keys[b] && old_keys[b] != nm
                    implies self.cats()[a] == old_cats[b] by {
                    if a != b {
                        lemma_lex_irreflexive(old_keys[a]);
                        if a < b {
                            assert(lex_lt(old_keys[a], old_keys[b]));
                        } else {
                            assert(lex_lt(old_keys[b], old_keys[a]));
                        }
                    }
                }
            }
            return;
        }
        proof {
            if i < n {
                assert(old_keys[i as int] == self.entries@[i as int].0@);
                lemma_lex_total(old_keys[i as int], name@);
            }
        }
        let ghost nm = name@;
        let ghost ct = cat;
        let mut entries: Vec<(String, Category)> = Vec::new();
        std::mem::swap(&mut entries, &mut self.entries);
        entries.insert(i, (name, cat));
        proof {
            let k = keys_of(entries@);
            assert(k =~= old_keys.insert(i as int, nm));
            assert forall|a: int, b: int| 0 <= a < b < k.len() implies lex_lt(#[trigger] k[a], #[trigger] k[b]) by {
                if b < i {
                } else if a < i && b == i {
                } else if a < i && b > i {
                    lemma_lex_transitive(old_keys[a], nm, old_keys[i as int]);
                    if b - 1 > i {
                        lemma_lex_transitive(old_keys[a], old_keys[i as int], old_keys[b - 1]);
                    }
                } else if a == i {
                    if b - 1 > i {
                        lemma_lex_transitive(nm, old_keys[i as int], old_keys[b - 1]);
                    }
                } else {
                    assert(lex_lt(old_keys[a - 1], old_keys[b - 1]));
                }
            }
        }
        self.entries = entries;
        proof {
            let k = self.keys();
            assert(k =~= old_keys.insert(i as int, nm));
            assert(self.cats() =~= old_cats.insert(i as int, ct));
            assert forall|y: Seq<char>| k.contains(y) <==> (old_keys.contains(y) || y == nm) by {
                if k.contains(y) {
                    let j = choose|j: int| 0 <= j < k.len() && k[j] == y;
                    if j < i {
                        assert(old_keys[j] == y);
                    } else if j > i {
                        assert(old_keys[j - 1] == y);
                    }
                }
                if old_keys.contains(y) {
                    let j = choose|j: int| 0 <= j < old_keys.len() && old_keys[j] == y;
                    if j < i {
                        assert(k[j] == y);
                    } else {
                        assert(k[j + 1] == y);
                    }
                }
                if y == nm {
                    assert(k[i as int] == y);
                }
            }
            assert forall|a: int| 0 <= a < k.len() && k[a] == nm implies self.cats()[a] == ct by {
                if a != i {
                    lemma_lex_irreflexive(nm);
                    if a < i {
                        assert(lex_lt(old_keys[a], nm));
                    } else {
                        assert(lex_lt(nm, old_keys[a - 1]));
                    }
                }
            }
            assert forall|a: int, b: int| 0 <= a < k.len() && 0 <= b < old_keys.len() && k[a]
                == old_keys[b] && old_keys[b] != nm implies self.cats()[a] == old_cats[b] by {
                let a2 = if a < i { a } else { a - 1 };
                assert(a != i);
                assert(k[a] == old_keys[a2]);
                if a2 != b {
                    lemma_lex_irreflexive(old_keys[b]);
                    if a2 < b {
                        assert(lex_lt(old_keys[a2], old_keys[b]));
                    } else {
                        assert(lex_lt(old_keys[b], old_keys[a2]));
                    }
                }
            }
        }
    }

    /// The category names, in strictly ascending order.
    pub fn names(&self) -> (r: Vec<&str>)
        ensures
            r@.len() == self.keys().len(),
            forall|i: int| 0 <= i < r@.len() ==> (#[trigger] r@[i])@ == self.keys()[i],
            forall|i: int, j: int| 0 <= i < j < r@.len() ==> lex_lt(#[trigger] r@[i]@, #[trigger] r@[j]@),
    {
        proof {
            use_type_invariant(self);
        }
        let mut r: Vec<&str> = Vec::new();
        let mut i: usize = 0;
        while i < self.entries.len()
            invariant
                i <= self.entries@.len(),
                r@.len() == i,
                forall|j: int| 0 <= j < i ==> (#[trigger] r@[j])@ == self.keys()[j],
            decreases self.entries@.len() - i,
        {
            r.push(self.entries[i].0.as_str());
            i = i + 1;
        }
        r
    }

    /// Whether a category of this name exists.
    pub fn contains(&self, name: &String) -> (r: bool)
        ensures
            r == self.keys().contains(name@),
    {
        let mut i: usize = 0;
        while i < self.entries.len()
            invariant
                i <= self.entries@.len(),
                forall|j: int| 0 <= j < i ==> self.keys()[j] != name@,
            decreases self.entries@.len() - i,
        {
            if self.entries[i].0 == *name {
                assert(self.keys()[i as int] == name@);
                return true;
            }
            i = i + 1;
        }
        false
    }

    /// The category filed under `name` (meaningful when the name is there).
    pub open spec fn cat_of(&self, name: Seq<char>) -> Category {
        self.cats()[self.keys().index_of(name)]
    }

    /// The category of this name, if there is one.
    pub fn get(&self, name: &String) -> (r: Option<&Category>)
        ensures
            r is None <==> !self.keys().contains(name@),
            r matches Some(c) ==> exists|i: int|
                0 <= i < self.keys().len() && self.keys()[i] == name@ && self.cats()[i] == *c,
            r matches Some(c) ==> *c == self.cat_of(name@),
    {
        let mut i: usize = 0;
        while i < self.entries.len()
            invariant
                i <= self.entries@.len(),
                forall|j: int| 0 <= j < i ==> self.keys()[j] != name@,
            decreases self.entries@.len() - i,
        {
            if self.entries[i].0 == *name {
                assert(self.keys()[i as int] == name@);
                assert(self.cats()[i as int] == self.entries@[i as int].1);
                proof {
                    use_type_invariant(self);
                    let k = self.keys().index_of(name@);
                    assert(self.keys().contains(name@));
                    assert(0 <= k < self.keys().len() && self.keys()[k] == name@);
                    if k != i {
                        lemma_lex_irreflexive(name@);
                        if k < i {
                            assert(lex_lt(self.keys()[k], self.keys()[i as int]));
                        } else {
                            assert(lex_lt(self.keys()[i as int], self.keys()[k]));
                        }
                    }
                }
                return Some(&self.entries[i].1);
            }
            i = i + 1;
        }
        None
    }

    /// Replace this list by `fetched` when it is newer. A list never rolls
    /// back to a lower version.
    pub fn adopt_if_newer(&mut self, fetched: Blocklist) -> (adopted: bool)
        ensures
            adopted == (fetched.version_spec() > old(self).version_spec()),
            adopted ==> *final(self) == fetched,
            !adopted ==> *final(self) == *old(self),
            final(self).version_spec() >= old(self).version_spec(),
    {
        if fetched.version > self.version {
            *self = fetched;
            true
        } else {
            false
        }
    }

    /// The first broken precision rule, in list order, if any.
    pub fn check(&self) -> (r: Result<(), ListError>)
        ensures
            r is Ok <==> list_fault(self.keys(), self.cats(), 0) is None,
            r matches Err(e) ==> list_fault(self.keys(), self.cats(), 0) == Some(
                (e.category@, (e.fault, e.item@, e.blocks@)),
            ),
    {
        let blocked = never_block();
        let mut k: usize = 0;
        while k < self.entries.len()
            invariant
                k <= self.entries@.len(),
                self.keys().len() == self.entries@.len(),
                self.cats().len() == self.entries@.len(),
                blocked@.len() == never_block_list().len(),
                forall|i: int| 0 <= i < blocked@.len() ==> (#[trigger] blocked@[i])@ == never_block_list()[i],
                list_fault(self.keys(), self.cats(), 0) == list_fault(self.keys(), self.cats(), k as int),
            decreases self.entries@.len() - k,
        {
            let name = &self.entries[k].0;
            let cat = &self.entries[k].1;
            assert(self.cats()[k as int] == *cat);
            assert(self.keys()[k as int] == name@);
            match category_check(cat, &blocked) {
                Some(f) => {
                    let (fault, item, blocks) = f;
                    return Err(ListError { fault, category: name.clone(), item, blocks });
                },
                None => {},
            }
            k = k + 1;
        }
        Ok(())
    }

    /// The precision rules from the top of blocklist.toml, enforced.
    pub fn validate(&self) -> (r: Result<(), String>)
        ensures
            r is Ok <==> list_fault(self.keys(), self.cats(), 0) is None,
            r matches Err(msg) ==> exists|e: ListError|
                list_fault(self.keys(), self.cats(), 0) == Some(
                    (e.category@, (e.fault, e.item@, e.blocks@)),
                ) && msg@ == e.message_spec(),
    {
        match self.check() {
            Ok(()) => Ok(()),
            Err(e) => Err(e.message()),
        }
    }

    /// Union of the selected categories, each list sorted with no repeats.
    /// Unknown names are ignored.
    pub fn select(&self, names: &[String]) -> (out: Category)
        ensures
            out.title@.len() == 0,
            out.blurb@.len() == 0,
            forall|which: int|
                0 <= which < 3 ==> strictly_sorted(#[trigger] out.field(which)),
            forall|which: int, y: Seq<char>|
                0 <= which < 3 ==> (#[trigger] out.field(which).contains(y) <==> picked(
                    self.keys(),
                    self.cats(),
                    views(names@),
                    which,
                    y,
                    self.keys().len() as int,
                )),
    {
        let every = String::from_str("everything");
        proof {
            reveal_strlit("everything");
            assert(every@ =~= everything());
        }
        let all = contains_string(names, &every);
        let mut doms: Vec<String> = Vec::new();
        let mut procs: Vec<String> = Vec::new();
        let mut apps: Vec<String> = Vec::new();
        let mut k: usize = 0;
        while k < self.entries.len()
            invariant
                k <= self.entries@.len(),
                self.keys().len() == self.entries@.len(),
                self.cats().len() == self.entries@.len(),
                all == views(names@).contains(everything()),
                strictly_sorted(views(doms@)),
                strictly_sorted(views(procs@)),
                strictly_sorted(views(apps@)),
                forall|y: Seq<char>|
                    #[trigger] views(doms@).contains(y) <==> picked(
                        self.keys(),
                        self.cats(),
                        views(names@),
                        0,
                        y,
                        k as int,
                    ),
                forall|y: Seq<char>|
                    #[trigger] views(procs@).contains(y) <==> picked(
                        self.keys(),
                        self.cats(),
                        views(names@),
                        1,
                        y,
                        k as int,
                    ),
                forall|y: Seq<char>|
                    #[trigger] views(apps@).contains(y) <==> picked(
                        self.keys(),
                        self.cats(),
                        views(names@),
                        2,
                        y,
                        k as int,
                    ),
            decreases self.entries@.len() - k,
        {
            let name = &self.entries[k].0;
            let cat = &self.entries[k].1;
            assert(self.cats()[k as int] == *cat);
            assert(self.keys()[k as int] == name@);
            let take = all || contains_string(names, name);
            assert(take == chosen(views(names@), self.keys()[k as int]));
            let ghost d0 = views(doms@);
            let ghost p0 = views(procs@);
            let ghost a0 = views(apps@);
            if take {
                doms = merged(doms, &cat.domains);
                procs = merged(procs, &cat.processes);
                apps = merged(apps, &cat.apps);
            }
            proof {
                let ks = self.keys();
                let cs = self.cats();
                let ns = views(names@);
                assert forall|y: Seq<char>| #[trigger] views(doms@).contains(y) <==> picked(ks, cs, ns, 0, y, k + 1) by {
                    lemma_picked_step(ks, cs, ns, 0, y, k as int);
                    assert(d0.contains(y) <==> picked(ks, cs, ns, 0, y, k as int));
                    assert(cs[k as int].field(0) == views(cat.domains@));
                }
                assert forall|y: Seq<char>| #[trigger] views(procs@).contains(y) <==> picked(ks, cs, ns, 1, y, k + 1) by {
                    lemma_picked_step(ks, cs, ns, 1, y, k as int);
                    assert(p0.contains(y) <==> picked(ks, cs, ns, 1, y, k as int));
                    assert(cs[k as int].field(1) == views(cat.processes@));
                }
                assert forall|y: Seq<char>| #[trigger] views(apps@).contains(y) <==> picked(ks, cs, ns, 2, y, k + 1) by {
                    lemma_picked_step(ks, cs, ns, 2, y, k as int);
                    assert(a0.contains(y) <==> picked(ks, cs, ns, 2, y, k as int));
                    assert(cs[k as int].field(2) == views(cat.apps@));
                }
            }
            k = k + 1;
        }
        let out = Category {
            title: String::new(),
            blurb: String::new(),
            domains: doms,
            processes: procs,
            apps: apps,
        };
        proof {
            assert forall|which: int| 0 <= which < 3 implies strictly_sorted(#[trigger] out.field(which)) by {}
            assert forall|which: int, y: Seq<char>| 0 <= which < 3 implies (#[trigger] out.field(which).contains(y) <==> picked(
                self.keys(),
                self.cats(),
                views(names@),
                which,
                y,
                self.keys().len() as int,
            )) by {
                if which == 0 {
                    assert(views(out.domains@).contains(y) <==> picked(self.keys(), self.cats(), views(names@), 0, y, k as int));
                } else if which == 1 {
                    assert(views(out.processes@).contains(y) <==> picked(self.keys(), self.cats(), views(names@), 1, y, k as int));
                } else {
                    assert(views(out.apps@).contains(y) <==> picked(self.keys(), self.cats(), views(names@), 2, y, k as int));
                }
            }
        }
        out
    }
}

/// One more category considered.
proof fn lemma_picked_step(
    keys: Seq<Seq<char>>,
    cats: Seq<Category>,
    names: Seq<Seq<char>>,
    which: int,
    y: Seq<char>,
    k: int,
)
    requires
        0 <= k,
    ensures
        picked(keys, cats, names, which, y, k + 1) <==> (picked(keys, cats, names, which, y, k) || (
        chosen(names, keys[k]) && cats[k].field(which).contains(y))),
{
    if picked(keys, cats, names, which, y, k + 1) {
        let j = choose|j: int|
            0 <= j < k + 1 && chosen(names, keys[j]) && (#[trigger] cats[j].field(which)).contains(y);
        if j < k {
            assert(picked(keys, cats, names, which, y, k));
        }
    }
    if picked(keys, cats, names, which, y, k) {
        let j = choose|j: int|
            0 <= j < k && chosen(names, keys[j]) && (#[trigger] cats[j].field(which)).contains(y);
        assert(0 <= j < k + 1);
    }
    if chosen(names, keys[k]) && cats[k].field(which).contains(y) {
        assert(0 <= k < k + 1);
    }
}

/// `out` with every string of `src` merged in, kept sorted and repeat-free.
fn merged(out: Vec<String>, src: &Vec<String>) -> (r: Vec<String>)
    requires
        strictly_sorted(views(out@)),
    ensures
        strictly_sorted(views(r@)),
        forall|y: Seq<char>|
            #[trigger] views(r@).contains(y) <==> (views(out@).contains(y) || views(src@).contains(y)),
{
    let mut r = out;
    merge_into(&mut r, src);
    r
}

/// Every string of `src` merged into the sorted, repeat-free `out`.
fn merge_into(out: &mut Vec<String>, src: &Vec<String>)
    requires
        strictly_sorted(views(old(out)@)),
    ensures
        strictly_sorted(views(final(out)@)),
        forall|y: Seq<char>|
            #![trigger views(final(out)@).contains(y)]
            #![trigger views(old(out)@).contains(y)]
            #![trigger views(src@).contains(y)]
            views(final(out)@).contains(y) <==> (views(old(out)@).contains(y) || views(src@).contains(y)),
{
    let ghost start = views(out@);
    let mut i: usize = 0;
    while i < src.len()
        invariant
            i <= src@.len(),
            strictly_sorted(views(out@)),
            forall|y: Seq<char>|
                views(out@).contains(y) <==> (start.contains(y) || views(src@).take(i as int).contains(y)),
        decreases src@.len() - i,
    {
        let ghost prev = views(out@);
        assert forall|y: Seq<char>| prev.contains(y) <==> (start.contains(y) || views(src@).take(i as int).contains(y)) by {
            assert(views(out@).contains(y) <==> (start.contains(y) || views(src@).take(i as int).contains(y)));
        }
        insert_sorted(out, &src[i]);
        proof {
            assert(views(src@)[i as int] == src@[i as int]@);
            assert forall|y: Seq<char>| views(src@).take(i + 1).contains(y) <==> (views(src@).take(i as int).contains(y) || y == src@[i as int]@) by {
                let t1 = views(src@).take(i + 1);
                let t0 = views(src@).take(i as int);
                if t1.contains(y) {
                    let j = choose|j: int| 0 <= j < t1.len() && t1[j] == y;
                    if j < i {
                        assert(t0[j] == y);
                    }
                }
                if t0.contains(y) {
                    let j = choose|j: int| 0 <= j < t0.len() && t0[j] == y;
                    assert(t1[j] == y);
                }
                if y == src@[i as int]@ {
                    assert(t1[i as int] == y);
                }
            }
            assert forall|y: Seq<char>| views(out@).contains(y) <==> (start.contains(y) || views(src@).take(i + 1).contains(y)) by {
                assert(views(out@).contains(y) <==> (prev.contains(y) || y == src@[i as int]@));
                assert(prev.contains(y) <==> (start.contains(y) || views(src@).take(i as int).contains(y)));
            }
        }
        i = i + 1;
    }
    assert(views(src@).take(src@.len() as int) =~= views(src@));
}

/// The first broken rule in `cat`, as plain values.
fn category_check(cat: &Category, blocked: &Vec<&'static str>) -> (r: Option<(Fault, String, String)>)
    requires
        blocked@.len() == never_block_list().len(),
        forall|i: int| 0 <= i < blocked@.len() ==> (#[trigger] blocked@[i])@ == never_block_list()[i],
    ensures
        r is None <==> category_fault(*cat) is None,
        r matches Some(f) ==> category_fault(*cat) == Some((f.0, f.1@, f.2@)),
{
    let mut i: usize = 0;
    while i < cat.domains.len()
        invariant
            i <= cat.domains@.len(),
            blocked@.len() == never_block_list().len(),
            forall|j: int| 0 <= j < blocked@.len() ==> (#[trigger] blocked@[j])@ == never_block_list()[j],
            domains_fault(cat.field(0), 0) == domains_fault(cat.field(0), i as int),
        decreases cat.domains@.len() - i,
    {
        let d = &cat.domains[i];
        assert(cat.field(0)[i as int] == d@);
        match domain_check(d, blocked) {
            Some(f) => {
                return Some(f);
            },
            None => {},
        }
        i = i + 1;
    }
    let ghost names = cat.field(1) + cat.field(2);
    let mut j: usize = 0;
    while j < cat.processes.len()
        invariant
            names == cat.field(1) + cat.field(2),
            domains_fault(cat.field(0), 0) is None,
            j <= cat.processes@.len(),
            names_fault(names, 0) == names_fault(names, j as int),
        decreases cat.processes@.len() - j,
    {
        let p = &cat.processes[j];
        assert(names[j as int] == p@);
        if !name_ok(p) {
            return Some((Fault::BadProcess, p.clone(), String::new()));
        }
        j = j + 1;
    }
    let mut j2: usize = 0;
    while j2 < cat.apps.len()
        invariant
            names == cat.field(1) + cat.field(2),
            domains_fault(cat.field(0), 0) is None,
            j2 <= cat.apps@.len(),
            names_fault(names, 0) == names_fault(names, cat.processes@.len() + j2),
        decreases cat.apps@.len() - j2,
    {
        let p = &cat.apps[j2];
        assert(names[cat.processes@.len() + j2] == p@);
        if !name_ok(p) {
            return Some((Fault::BadProcess, p.clone(), String::new()));
        }
        j2 = j2 + 1;
    }
    None
}

/// The fault of one domain, as plain values.
fn domain_check(d: &String, blocked: &Vec<&'static str>) -> (r: Option<(Fault, String, String)>)
    requires
        blocked@.len() == never_block_list().len(),
        forall|i: int| 0 <= i < blocked@.len() ==> (#[trigger] blocked@[i])@ == never_block_list()[i],
    ensures
        r is None <==> domain_fault(d@) is None,
        r matches Some(f) ==> domain_fault(d@) == Some((f.0, f.1@, f.2@)),
{
    let cs = chars_of(d.as_str());
    if !hostname_ok(&cs) {
        return Some((Fault::BadDomain, d.clone(), String::new()));
    }
    let mut dotted: Vec<char> = Vec::new();
    dotted.push('.');
    crate::text::push_all(&mut dotted, &cs);
    assert(dotted@ =~= seq!['.'] + d@);
    let mut i: usize = 0;
    while i < blocked.len()
        invariant
            i <= blocked@.len(),
            cs@ == d@,
            dotted@ == seq!['.'] + d@,
            is_hostname(d@),
            blocked@.len() == never_block_list().len(),
            forall|j: int| 0 <= j < blocked@.len() ==> (#[trigger] blocked@[j])@ == never_block_list()[j],
            infra_from(d@, 0) == infra_from(d@, i as int),
        decreases blocked@.len() - i,
    {
        let n = chars_of(blocked[i]);
        assert(n@ == never_block_list()[i as int]);
        if crate::text::chars_eq(&cs, &n) || chars_ends_with(&n, &dotted) {
            assert(covers(d@, never_block_list()[i as int]));
            assert(infra_from(d@, i as int) == Some(never_block_list()[i as int]));
            let b = String::from_str(blocked[i]);
            assert(b@ == never_block_list()[i as int]);
            let dc = d.clone();
            assert(dc@ == d@);
            assert(is_hostname(d@));
            assert(domain_fault(d@) == Some((Fault::Infrastructure, d@, never_block_list()[i as int])));
            return Some((Fault::Infrastructure, dc, b));
        }
        i = i + 1;
    }
    None
}

fn hostname_ok(d: &Vec<char>) -> (r: bool)
    ensures
        r == is_hostname(d@),
        r <==> plain_hostname(d@),
{
    proof {
        lemma_hostname_rule(d@);
    }
    let n = d.len();
    if n == 0 || d[0] == '.' || d[n - 1] == '.' {
        return false;
    }
    let mut dot = false;
    let mut i: usize = 0;
    while i < n
        invariant
            n == d@.len(),
            i <= n,
            forall|j: int| 0 <= j < i ==> host_char(#[trigger] d@[j]),
            dot == exists|j: int| 0 <= j < i && d@[j] == '.',
        decreases n - i,
    {
        let c = d[i];
        if !(('a' <= c && c <= 'z') || ('0' <= c && c <= '9') || c == '.' || c == '-') {
            return false;
        }
        if c == '.' {
            dot = true;
        }
        i = i + 1;
    }
    proof {
        if dot {
            let j = choose|j: int| 0 <= j < n && d@[j] == '.';
            assert(d@.contains('.'));
        } else {
            assert(!d@.contains('.'));
        }
    }
    dot
}

fn name_ok(p: &String) -> (r: bool)
    ensures
        r == good_name(p@),
{
    let cs = chars_of(p.as_str());
    if cs.len() == 0 {
        return false;
    }
    let mut i: usize = 0;
    while i < cs.len()
        invariant
            cs@ == p@,
            i <= cs@.len(),
            forall|j: int| 0 <= j < i ==> {
                &&& #[trigger] cs@[j] != '/'
                &&& cs@[j] != '*'
                &&& !is_control(cs@[j])
            },
        decreases cs@.len() - i,
    {
        let c = cs[i];
        let code = c as u32;
        if c == '/' || c == '*' || code <= 0x1f || (0x7f <= code && code <= 0x9f) {
            return false;
        }
        i = i + 1;
    }
    true
}

impl ListError {
    pub open spec fn message_spec(&self) -> Seq<char> {
        match self.fault {
            Fault::BadDomain => self.category@ + ": bad domain "@ + debug_quoted(self.item@),
            Fault::Infrastructure => self.category@ + ": "@ + debug_quoted(self.item@) + " would block "@
                + self.blocks@ + ", which is infrastructure; blocklist refused"@,
            Fault::BadProcess => self.category@ + ": bad process "@ + debug_quoted(self.item@),
        }
    }

    /// The refusal in words, naming the category and the entry.
    pub fn message(&self) -> (r: String)
        ensures
            r@ == self.message_spec(),
    {
        let mut m = self.category.clone();
        match self.fault {
            Fault::BadDomain => {
                m.append(": bad domain ");
                m.append(debug_text(self.item.as_str()).as_str());
            },
            Fault::Infrastructure => {
                m.append(": ");
                m.append(debug_text(self.item.as_str()).as_str());
                m.append(" would block ");
                m.append(self.blocks.as_str());
                m.append(", which is infrastructure; blocklist refused");
            },
            Fault::BadProcess => {
                m.append(": bad process ");
                m.append(debug_text(self.item.as_str()).as_str());
            },
        }
        m
    }
}

// ---------------------------------------------------------------------------
// Laws.
// ---------------------------------------------------------------------------

proof fn lemma_domains_clean(ds: Seq<Seq<char>>, i: int)
    requires
        0 <= i,
        domains_fault(ds, i) is None,
    ensures
        forall|j: int| i <= j < ds.len() ==> domain_fault(#[trigger] ds[j]) is None,
    decreases ds.len() - i,
{
    if i < ds.len() {
        lemma_domains_clean(ds, i + 1);
    }
}

proof fn lemma_names_clean(ps: Seq<Seq<char>>, i: int)
    requires
        0 <= i,
        names_fault(ps, i) is None,
    ensures
        forall|j: int| i <= j < ps.len() ==> good_name(#[trigger] ps[j]),
    decreases ps.len() - i,
{
    if i < ps.len() {
        lemma_names_clean(ps, i + 1);
    }
}

proof fn lemma_infra_none(d: Seq<char>, i: int)
    requires
        0 <= i,
        infra_from(d, i) is None,
    ensures
        forall|j: int| i <= j < never_block_list().len() ==> !covers(d, #[trigger] never_block_list()[j]),
    decreases never_block_list().len() - i,
{
    if i < never_block_list().len() {
        lemma_infra_none(d, i + 1);
    }
}

proof fn lemma_infra_none_rev(d: Seq<char>, i: int)
    requires
        0 <= i,
        forall|j: int| i <= j < never_block_list().len() ==> !covers(d, #[trigger] never_block_list()[j]),
    ensures
        infra_from(d, i) is None,
    decreases never_block_list().len() - i,
{
    if i < never_block_list().len() {
        lemma_infra_none_rev(d, i + 1);
    }
}

proof fn lemma_list_clean(keys: Seq<Seq<char>>, cats: Seq<Category>, k: int)
    requires
        0 <= k,
        list_fault(keys, cats, k) is None,
    ensures
        forall|j: int| k <= j < keys.len() && j < cats.len() ==> category_fault(#[trigger] cats[j]) is None,
    decreases keys.len() - k,
{
    if k < keys.len() && k < cats.len() {
        lemma_list_clean(keys, cats, k + 1);
    }
}

/// A list that passes the checks is precise: every domain is a plain
/// hostname that blocks no infrastructure domain, and every process or app
/// is a plain name.
pub proof fn lemma_accepted_is_precise(keys: Seq<Seq<char>>, cats: Seq<Category>)
    requires
        list_fault(keys, cats, 0) is None,
    ensures
        forall|k: int, i: int|
            0 <= k < keys.len() && k < cats.len() && 0 <= i < cats[k].field(0).len() ==> {
                &&& is_hostname(#[trigger] cats[k].field(0)[i])
                &&& forall|n: int|
                    0 <= n < never_block_list().len() ==> !covers(
                        cats[k].field(0)[i],
                        #[trigger] never_block_list()[n],
                    )
            },
        forall|k: int, i: int|
            0 <= k < keys.len() && k < cats.len() && 0 <= i < cats[k].field(1).len() ==> good_name(
                #[trigger] cats[k].field(1)[i],
            ),
        forall|k: int, i: int|
            0 <= k < keys.len() && k < cats.len() && 0 <= i < cats[k].field(2).len() ==> good_name(
                #[trigger] cats[k].field(2)[i],
            ),
{
    lemma_list_clean(keys, cats, 0);
    assert forall|k: int| #![trigger cats[k]] 0 <= k < keys.len() && k < cats.len() implies {
        &&& (forall|i: int| 0 <= i < cats[k].field(0).len() ==> {
            &&& is_hostname(#[trigger] cats[k].field(0)[i])
            &&& forall|n: int| 0 <= n < never_block_list().len() ==> !covers(cats[k].field(0)[i], #[trigger] never_block_list()[n])
        })
        &&& (forall|i: int| 0 <= i < cats[k].field(1).len() ==> good_name(#[trigger] cats[k].field(1)[i]))
        &&& (forall|i: int| 0 <= i < cats[k].field(2).len() ==> good_name(#[trigger] cats[k].field(2)[i]))
    } by {
        let c = cats[k];
        assert(category_fault(c) is None);
        lemma_domains_clean(c.field(0), 0);
        let ps = c.field(1) + c.field(2);
        lemma_names_clean(ps, 0);
        assert forall|i: int| 0 <= i < c.field(0).len() implies {
            &&& is_hostname(#[trigger] c.field(0)[i])
            &&& forall|n: int| 0 <= n < never_block_list().len() ==> !covers(c.field(0)[i], #[trigger] never_block_list()[n])
        } by {
            assert(domain_fault(c.field(0)[i]) is None);
            lemma_infra_none(c.field(0)[i], 0);
        }
        assert forall|i: int| 0 <= i < c.field(1).len() implies good_name(#[trigger] c.field(1)[i]) by {
            assert(ps[i] == c.field(1)[i]);
        }
        assert forall|i: int| 0 <= i < c.field(2).len() implies good_name(#[trigger] c.field(2)[i]) by {
            assert(ps[c.field(1).len() + i] == c.field(2)[i]);
        }
    }
}

/// Selecting "everything" selects at least what any selection does.
pub proof fn lemma_everything_covers(
    keys: Seq<Seq<char>>,
    cats: Seq<Category>,
    names: Seq<Seq<char>>,
    which: int,
    y: Seq<char>,
    upto: int,
)
    requires
        picked(keys, cats, names, which, y, upto),
    ensures
        picked(keys, cats, seq![everything()], which, y, upto),
{
    let k = choose|k: int| 0 <= k < upto && chosen(names, keys[k]) && (#[trigger] cats[k].field(which)).contains(y);
    assert(seq![everything()][0] == everything());
    assert(chosen(seq![everything()], keys[k]));
}

/// Asking for more names never selects less.
pub proof fn lemma_select_monotone(
    keys: Seq<Seq<char>>,
    cats: Seq<Category>,
    n1: Seq<Seq<char>>,
    n2: Seq<Seq<char>>,
    which: int,
    y: Seq<char>,
    upto: int,
)
    requires
        forall|x: Seq<char>| n1.contains(x) ==> n2.contains(x),
        picked(keys, cats, n1, which, y, upto),
    ensures
        picked(keys, cats, n2, which, y, upto),
{
    let k = choose|k: int| 0 <= k < upto && chosen(n1, keys[k]) && (#[trigger] cats[k].field(which)).contains(y);
    assert(chosen(n2, keys[k]));
}

/// "everything" picks exactly what naming every category picks.
pub proof fn lemma_everything_is_all(keys: Seq<Seq<char>>, cats: Seq<Category>, which: int, y: Seq<char>)
    ensures
        picked(keys, cats, seq![everything()], which, y, keys.len() as int) <==> picked(
            keys,
            cats,
            keys,
            which,
            y,
            keys.len() as int,
        ),
{
    let n = keys.len() as int;
    if picked(keys, cats, seq![everything()], which, y, n) {
        let k = choose|k: int|
            0 <= k < n && chosen(seq![everything()], keys[k]) && (#[trigger] cats[k].field(which)).contains(y);
        assert(keys.contains(keys[k]));
        assert(chosen(keys, keys[k]));
    }
    if picked(keys, cats, keys, which, y, n) {
        let k = choose|k: int| 0 <= k < n && chosen(keys, keys[k]) && (#[trigger] cats[k].field(which)).contains(y);
        assert(seq![everything()][0] == everything());
        assert(chosen(seq![everything()], keys[k]));
    }
}

/// Selecting "everything" gives, field by field, what selecting every
/// category by name gives: the selections `all` and `named` are as `select`
/// describes them for those two requests.
pub proof fn lemma_everything_selects_all_keys(
    keys: Seq<Seq<char>>,
    cats: Seq<Category>,
    all: Category,
    named: Category,
)
    requires
        forall|which: int| 0 <= which < 3 ==> strictly_sorted(#[trigger] all.field(which)),
        forall|which: int| 0 <= which < 3 ==> strictly_sorted(#[trigger] named.field(which)),
        forall|which: int, y: Seq<char>|
            0 <= which < 3 ==> (#[trigger] all.field(which).contains(y) <==> picked(
                keys,
                cats,
                seq![everything()],
                which,
                y,
                keys.len() as int,
            )),
        forall|which: int, y: Seq<char>|
            0 <= which < 3 ==> (#[trigger] named.field(which).contains(y) <==> picked(
                keys,
                cats,
                keys,
                which,
                y,
                keys.len() as int,
            )),
    ensures
        forall|which: int| 0 <= which < 3 ==> #[trigger] all.field(which) == named.field(which),
{
    assert forall|which: int| 0 <= which < 3 implies #[trigger] all.field(which) == named.field(which) by {
        assert forall|y: Seq<char>| all.field(which).contains(y) <==> named.field(which).contains(y) by {
            lemma_everything_is_all(keys, cats, which, y);
        }
        lemma_sorted_unique(all.field(which), named.field(which));
    }
}

} // verus!
