//! /etc/hosts management. We own exactly one fenced section and touch
//! nothing outside it.

use vstd::prelude::*;

use crate::text::{chars_eq, chars_of, push_all, string_of, views};

verus! {

pub const PATH: &'static str = "/etc/hosts";

pub const BEGIN: &'static str =
    "# >>> tto: turn them off. Do not edit; rewritten every second while a block is active. >>>";

pub const END: &'static str = "# <<< tto <<<";

/// Written in front of a begin marker that never met its end marker.
pub const DEFUSE: &'static str = "# (tto: stray begin marker, kept for reference) ";

// ---------------------------------------------------------------------------
// The model: text as a sequence of characters, a file as a sequence of lines.
// ---------------------------------------------------------------------------

pub open spec fn begin_line() -> Seq<char> {
    BEGIN@
}

pub open spec fn end_line() -> Seq<char> {
    END@
}

pub open spec fn defuse_prefix() -> Seq<char> {
    DEFUSE@
}

/// `s` cut at every newline; the last piece is what follows the last newline.
pub open spec fn pieces(s: Seq<char>) -> Seq<Seq<char>>
    decreases s.len(),
{
    if s.len() == 0 {
        seq![Seq::<char>::empty()]
    } else {
        let p = pieces(s.drop_last());
        if s.last() == '\n' {
            p.push(Seq::<char>::empty())
        } else {
            p.update(p.len() - 1, p.last().push(s.last()))
        }
    }
}

/// A line that ended in "\r\n" loses its carriage return.
pub open spec fn strip_cr(l: Seq<char>) -> Seq<char> {
    if l.len() > 0 && l.last() == '\r' {
        l.drop_last()
    } else {
        l
    }
}

/// The lines of `s` as `str::lines` yields them: split at "\n" or "\r\n";
/// a final line ending is optional; a bare "\r" is not a line ending.
pub open spec fn lines_of(s: Seq<char>) -> Seq<Seq<char>> {
    let p = pieces(s);
    let done = p.drop_last().map_values(|l: Seq<char>| strip_cr(l));
    if p.last().len() > 0 {
        done.push(p.last())
    } else {
        done
    }
}

/// Every line followed by a newline.
pub open spec fn join(ls: Seq<Seq<char>>) -> Seq<char>
    decreases ls.len(),
{
    if ls.len() == 0 {
        Seq::<char>::empty()
    } else {
        join(ls.drop_last()) + ls.last().push('\n')
    }
}

/// What reading the old file has produced so far: the lines kept, and, after
/// an unmatched begin marker, the lines held back until its end marker shows.
pub type Scan = (Seq<Seq<char>>, Option<Seq<Seq<char>>>);

pub open spec fn step(st: Scan, l: Seq<char>) -> Scan {
    match st.1 {
        None => if l == begin_line() {
            (st.0, Some(seq![l]))
        } else {
            (st.0.push(l), None)
        },
        Some(buf) => if l == end_line() {
            (st.0, None)
        } else {
            (st.0, Some(buf.push(l)))
        },
    }
}

pub open spec fn scan(st: Scan, ls: Seq<Seq<char>>) -> Scan
    decreases ls.len(),
{
    if ls.len() == 0 {
        st
    } else {
        step(scan(st, ls.drop_last()), ls.last())
    }
}

pub open spec fn scan_start() -> Scan {
    (Seq::<Seq<char>>::empty(), None)
}

/// A held-back begin marker is written back behind a prefix, so that it can
/// never pair with an end marker again.
pub open spec fn defuse(l: Seq<char>) -> Seq<char> {
    if l == begin_line() {
        defuse_prefix() + l
    } else {
        l
    }
}

pub open spec fn defused(buf: Seq<Seq<char>>) -> Seq<Seq<char>> {
    buf.map_values(|l: Seq<char>| defuse(l))
}

/// The kept lines, then whatever was held back when the file ended.
pub open spec fn flushed(st: Scan) -> Seq<Seq<char>> {
    match st.1 {
        None => st.0,
        Some(buf) => st.0 + defused(buf),
    }
}

/// Blank lines at the end are dropped, down to a single line.
pub open spec fn trim_lines(ls: Seq<Seq<char>>) -> Seq<Seq<char>>
    decreases ls.len(),
{
    if ls.len() >= 2 && ls.last().len() == 0 {
        trim_lines(ls.drop_last())
    } else {
        ls
    }
}

/// The lines of `current` outside our section.
pub open spec fn released_lines(current: Seq<char>) -> Seq<Seq<char>> {
    trim_lines(flushed(scan(scan_start(), lines_of(current))))
}

/// The hosts file with our section taken out.
pub open spec fn released(current: Seq<char>) -> Seq<char> {
    join(released_lines(current))
}

pub open spec fn ipv4_any() -> Seq<char> {
    seq!['0', '.', '0', '.', '0', '.', '0', ' ']
}

pub open spec fn ipv6_any() -> Seq<char> {
    seq![':', ':', ' ']
}

pub open spec fn www() -> Seq<char> {
    seq!['w', 'w', 'w', '.']
}

pub open spec fn count_dots(d: Seq<char>) -> nat
    decreases d.len(),
{
    if d.len() == 0 {
        0
    } else {
        count_dots(d.drop_last()) + if d.last() == '.' { 1nat } else { 0nat }
    }
}

/// A bare second-level name ("perplexity.ai") is blocked with its "www." too.
pub open spec fn adds_www(d: Seq<char>) -> bool {
    !(d.len() >= 4 && d.take(4) == www()) && count_dots(d) == 1
}

pub open spec fn domain_lines(d: Seq<char>) -> Seq<Seq<char>> {
    if adds_www(d) {
        seq![ipv4_any() + d, ipv6_any() + d, ipv4_any() + www() + d, ipv6_any() + www() + d]
    } else {
        seq![ipv4_any() + d, ipv6_any() + d]
    }
}

pub open spec fn entries(ds: Seq<Seq<char>>) -> Seq<Seq<char>>
    decreases ds.len(),
{
    if ds.len() == 0 {
        Seq::<Seq<char>>::empty()
    } else {
        entries(ds.drop_last()) + domain_lines(ds.last())
    }
}

/// Our section: the begin marker, two lines per name, the end marker.
pub open spec fn fence_lines(ds: Seq<Seq<char>>) -> Seq<Seq<char>> {
    seq![begin_line()] + entries(ds) + seq![end_line()]
}

/// The hosts file `current` with our section replaced by one for `ds`, or
/// removed when `ds` is empty.
pub open spec fn render_spec(current: Seq<char>, ds: Seq<Seq<char>>) -> Seq<char> {
    let out = released(current);
    if ds.len() == 0 {
        out
    } else {
        let out1 = if out.len() > 0 && out.last() != '\n' {
            out.push('\n')
        } else {
            out
        };
        out1.push('\n') + join(fence_lines(ds))
    }
}

pub open spec fn no_newline(l: Seq<char>) -> bool {
    forall|i: int| 0 <= i < l.len() ==> l[i] != '\n'
}

pub open spec fn all_no_newline(ls: Seq<Seq<char>>) -> bool {
    forall|i: int| 0 <= i < ls.len() ==> no_newline(#[trigger] ls[i])
}

// ---------------------------------------------------------------------------
// Facts about the model.
// ---------------------------------------------------------------------------

pub proof fn lemma_markers()
    ensures
        begin_line().len() == 90,
        begin_line()[0] == '#',
        no_newline(begin_line()),
        begin_line().last() == '>',
        end_line().len() == 13,
        end_line()[0] == '#',
        no_newline(end_line()),
        end_line().last() == '<',
        defuse_prefix().len() == 48,
        no_newline(defuse_prefix()),
        begin_line() != end_line(),
{
    reveal_strlit("# >>> tto: turn them off. Do not edit; rewritten every second while a block is active. >>>");
    reveal_strlit("# <<< tto <<<");
    reveal_strlit("# (tto: stray begin marker, kept for reference) ");
    assert(BEGIN@ == "# >>> tto: turn them off. Do not edit; rewritten every second while a block is active. >>>"@);
    assert(END@ == "# <<< tto <<<"@);
    assert(DEFUSE@ == "# (tto: stray begin marker, kept for reference) "@);
}

pub proof fn lemma_pieces_nonempty(s: Seq<char>)
    ensures
        pieces(s).len() >= 1,
    decreases s.len(),
{
    if s.len() > 0 {
        lemma_pieces_nonempty(s.drop_last());
    }
}

pub proof fn lemma_join_append(a: Seq<Seq<char>>, b: Seq<Seq<char>>)
    ensures
        join(a + b) == join(a) + join(b),
    decreases b.len(),
{
    if b.len() == 0 {
        assert(a + b =~= a);
    } else {
        lemma_join_append(a, b.drop_last());
        assert((a + b).drop_last() =~= a + b.drop_last());
        assert((a + b).last() == b.last());
    }
}

pub proof fn lemma_join_len(ls: Seq<Seq<char>>)
    ensures
        (join(ls).len() == 0) == (ls.len() == 0),
        ls.len() > 0 ==> join(ls).last() == '\n',
    decreases ls.len(),
{
    if ls.len() > 0 {
        lemma_join_len(ls.drop_last());
    }
}

/// With lines free of newlines, the text ends in a blank line exactly when
/// the last of at least two lines is empty.
pub proof fn lemma_join_blank_tail(ls: Seq<Seq<char>>)
    requires
        all_no_newline(ls),
    ensures
        (join(ls).len() >= 2 && join(ls)[join(ls).len() - 1] == '\n' && join(ls)[join(ls).len() - 2]
            == '\n') == (ls.len() >= 2 && ls.last().len() == 0),
        ls.len() > 0 && ls.last().len() == 0 ==> join(ls).drop_last() == join(ls.drop_last()),
{
    if ls.len() > 0 {
        let m = ls.drop_last();
        let x = ls.last();
        lemma_join_len(m);
        assert(join(ls) == join(m) + x.push('\n'));
        if x.len() > 0 {
            assert(no_newline(ls[ls.len() - 1]));
            assert(join(ls)[join(ls).len() - 2] == x[x.len() - 1]);
        } else {
            assert(join(ls) =~= join(m).push('\n'));
        }
    }
}

pub proof fn lemma_scan_append(st: Scan, a: Seq<Seq<char>>, b: Seq<Seq<char>>)
    ensures
        scan(st, a + b) == scan(scan(st, a), b),
    decreases b.len(),
{
    if b.len() == 0 {
        assert(a + b =~= a);
    } else {
        lemma_scan_append(st, a, b.drop_last());
        assert((a + b).drop_last() =~= a + b.drop_last());
        assert((a + b).last() == b.last());
    }
}

pub proof fn lemma_pieces_no_newline(s: Seq<char>)
    ensures
        all_no_newline(pieces(s)),
    decreases s.len(),
{
    lemma_pieces_nonempty(s);
    if s.len() > 0 {
        lemma_pieces_no_newline(s.drop_last());
        lemma_pieces_nonempty(s.drop_last());
        let p = pieces(s.drop_last());
        if s.last() != '\n' {
            assert forall|i: int| 0 <= i < pieces(s).len() implies no_newline(#[trigger] pieces(s)[i]) by {
                if i == p.len() - 1 {
                    assert(no_newline(p[i]));
                    assert(pieces(s)[i] == p[i].push(s.last()));
                }
            }
        } else {
            assert forall|i: int| 0 <= i < pieces(s).len() implies no_newline(#[trigger] pieces(s)[i]) by {
                if i < p.len() {
                    assert(no_newline(p[i]));
                }
            }
        }
    }
}

pub proof fn lemma_lines_no_newline(s: Seq<char>)
    ensures
        all_no_newline(lines_of(s)),
{
    lemma_pieces_no_newline(s);
    lemma_pieces_nonempty(s);
    let p = pieces(s);
    assert forall|i: int| 0 <= i < lines_of(s).len() implies no_newline(#[trigger] lines_of(s)[i]) by {
        assert(no_newline(p[i]));
        if i < p.len() - 1 {
            assert(lines_of(s)[i] == strip_cr(p[i]));
        }
    }
}

pub proof fn lemma_scan_no_newline(st: Scan, ls: Seq<Seq<char>>)
    requires
        all_no_newline(st.0),
        st.1 matches Some(buf) ==> all_no_newline(buf),
        all_no_newline(ls),
    ensures
        all_no_newline(scan(st, ls).0),
        scan(st, ls).1 matches Some(buf) ==> all_no_newline(buf),
    decreases ls.len(),
{
    if ls.len() > 0 {
        assert(all_no_newline(ls.drop_last())) by {
            assert forall|i: int| 0 <= i < ls.drop_last().len() implies no_newline(#[trigger] ls.drop_last()[i]) by {
                assert(no_newline(ls[i]));
            }
        }
        lemma_scan_no_newline(st, ls.drop_last());
        let s0 = scan(st, ls.drop_last());
        assert(no_newline(ls[ls.len() - 1]));
        let l = ls.last();
        match s0.1 {
            None => {
                if l != begin_line() {
                    assert forall|i: int| 0 <= i < s0.0.push(l).len() implies no_newline(#[trigger] s0.0.push(l)[i]) by {
                        if i < s0.0.len() {
                            assert(no_newline(s0.0[i]));
                        }
                    }
                }
            },
            Some(buf) => {
                if l != end_line() {
                    assert forall|i: int| 0 <= i < buf.push(l).len() implies no_newline(#[trigger] buf.push(l)[i]) by {
                        if i < buf.len() {
                            assert(no_newline(buf[i]));
                        }
                    }
                }
            },
        }
    }
}

pub proof fn lemma_defused_no_newline(buf: Seq<Seq<char>>)
    requires
        all_no_newline(buf),
    ensures
        all_no_newline(defused(buf)),
{
    lemma_markers();
    assert forall|i: int| 0 <= i < defused(buf).len() implies no_newline(#[trigger] defused(buf)[i]) by {
        assert(no_newline(buf[i]));
        let l = buf[i];
        if l == begin_line() {
            assert forall|j: int| 0 <= j < (defuse_prefix() + l).len() implies (defuse_prefix() + l)[j] != '\n' by {
                if j < defuse_prefix().len() {
                    assert(defuse_prefix()[j] != '\n');
                } else {
                    assert(l[j - defuse_prefix().len()] != '\n');
                }
            }
        }
    }
}

pub proof fn lemma_flushed_no_newline(current: Seq<char>)
    ensures
        all_no_newline(flushed(scan(scan_start(), lines_of(current)))),
{
    lemma_lines_no_newline(current);
    lemma_scan_no_newline(scan_start(), lines_of(current));
    let st = scan(scan_start(), lines_of(current));
    match st.1 {
        None => {},
        Some(buf) => {
            lemma_defused_no_newline(buf);
            assert forall|i: int| 0 <= i < flushed(st).len() implies no_newline(#[trigger] flushed(st)[i]) by {
                if i < st.0.len() {
                    assert(no_newline(st.0[i]));
                } else {
                    assert(flushed(st)[i] == defused(buf)[i - st.0.len()]);
                    assert(no_newline(defused(buf)[i - st.0.len()]));
                }
            }
        },
    }
}

// ---------------------------------------------------------------------------
// Laws of the fence.
// ---------------------------------------------------------------------------

/// A line as `str::lines` can hand it back unchanged once written out.
pub open spec fn stable_line(l: Seq<char>) -> bool {
    no_newline(l) && strip_cr(l) == l
}

pub open spec fn all_stable(ls: Seq<Seq<char>>) -> bool {
    forall|i: int| 0 <= i < ls.len() ==> stable_line(#[trigger] ls[i])
}

pub open spec fn none_begin(ls: Seq<Seq<char>>) -> bool {
    forall|i: int| 0 <= i < ls.len() ==> #[trigger] ls[i] != begin_line()
}

/// No line of the file ends in a carriage return that "\r\n" would hide.
pub open spec fn crlf_clean(current: Seq<char>) -> bool {
    forall|i: int|
        0 <= i < lines_of(current).len() ==> strip_cr(#[trigger] lines_of(current)[i]) == lines_of(
            current,
        )[i]
}

pub open spec fn names_one_line(ds: Seq<Seq<char>>) -> bool {
    forall|i: int| 0 <= i < ds.len() ==> no_newline(#[trigger] ds[i])
}

proof fn lemma_pieces_single(x: Seq<char>)
    requires
        no_newline(x),
    ensures
        pieces(x) == seq![x],
    decreases x.len(),
{
    if x.len() > 0 {
        assert(no_newline(x.drop_last()));
        lemma_pieces_single(x.drop_last());
        assert(x.drop_last().push(x.last()) =~= x);
    } else {
        assert(x =~= Seq::<char>::empty());
    }
}

proof fn lemma_pieces_append(a: Seq<char>, b: Seq<char>)
    requires
        a.len() == 0 || a.last() == '\n',
    ensures
        pieces(a + b) == pieces(a).drop_last() + pieces(b),
    decreases b.len(),
{
    lemma_pieces_nonempty(a);
    lemma_pieces_nonempty(b);
    if b.len() == 0 {
        assert(a + b =~= a);
        if a.len() > 0 {
            lemma_pieces_nonempty(a.drop_last());
        }
        assert(pieces(a).last() =~= Seq::<char>::empty());
        assert(pieces(a) =~= pieces(a).drop_last() + seq![Seq::<char>::empty()]);
    } else {
        lemma_pieces_append(a, b.drop_last());
        lemma_pieces_nonempty(b.drop_last());
        assert((a + b).drop_last() =~= a + b.drop_last());
        assert((a + b).last() == b.last());
        let pa = pieces(a).drop_last();
        let pb = pieces(b.drop_last());
        if b.last() == '\n' {
            assert(pieces(a + b) =~= (pa + pb).push(Seq::<char>::empty()));
            assert(pieces(b) =~= pb.push(Seq::<char>::empty()));
        } else {
            assert((pa + pb).last() == pb.last());
            assert(pieces(a + b) =~= (pa + pb).update((pa + pb).len() - 1, pb.last().push(b.last())));
            assert(pieces(b) =~= pb.update(pb.len() - 1, pb.last().push(b.last())));
            assert(pieces(a + b) =~= pa + pieces(b));
        }
    }
}

proof fn lemma_pieces_join(ls: Seq<Seq<char>>, t: Seq<char>)
    requires
        all_no_newline(ls),
    ensures
        pieces(join(ls) + t) == ls + pieces(t),
    decreases ls.len(),
{
    lemma_join_len(ls);
    if ls.len() == 0 {
        assert(join(ls) + t =~= t);
        assert(ls + pieces(t) =~= pieces(t));
    } else {
        let m = ls.drop_last();
        let x = ls.last();
        assert(all_no_newline(m)) by {
            assert forall|i: int| 0 <= i < m.len() implies no_newline(#[trigger] m[i]) by {
                assert(no_newline(ls[i]));
            }
        }
        assert(no_newline(ls[ls.len() - 1]));
        lemma_join_len(m);
        lemma_pieces_join(m, x.push('\n') + t);
        assert(join(ls) + t =~= join(m) + (x.push('\n') + t));
        // pieces(x + "\n" + t) == [x] + pieces(t)
        let xn = x.push('\n');
        lemma_pieces_append(xn, t);
        lemma_pieces_single(x);
        assert(xn.drop_last() =~= x);
        assert(pieces(xn) == pieces(x).push(Seq::<char>::empty()));
        assert(pieces(xn).drop_last() =~= seq![x]);
        assert(ls + pieces(t) =~= m + (seq![x] + pieces(t)));
    }
}

proof fn lemma_lines_join(ls: Seq<Seq<char>>)
    requires
        all_stable(ls),
    ensures
        lines_of(join(ls)) == ls,
{
    assert(all_no_newline(ls)) by {
        assert forall|i: int| 0 <= i < ls.len() implies no_newline(#[trigger] ls[i]) by {
            assert(stable_line(ls[i]));
        }
    }
    lemma_pieces_join(ls, Seq::<char>::empty());
    assert(join(ls) + Seq::<char>::empty() =~= join(ls));
    let p = pieces(join(ls));
    assert(p == ls + seq![Seq::<char>::empty()]);
    assert(p.drop_last() =~= ls);
    assert(ls.map_values(|l: Seq<char>| strip_cr(l)) =~= ls) by {
        assert forall|i: int| 0 <= i < ls.len() implies strip_cr(ls[i]) == ls[i] by {
            assert(stable_line(ls[i]));
        }
    }
}

proof fn lemma_scan_plain(a: Seq<Seq<char>>, ls: Seq<Seq<char>>)
    requires
        none_begin(ls),
    ensures
        scan((a, None), ls) == (a + ls, Option::<Seq<Seq<char>>>::None),
    decreases ls.len(),
{
    if ls.len() == 0 {
        assert(a + ls =~= a);
    } else {
        assert(none_begin(ls.drop_last())) by {
            assert forall|i: int| 0 <= i < ls.drop_last().len() implies #[trigger] ls.drop_last()[i]
                != begin_line() by {
                assert(ls[i] != begin_line());
            }
        }
        lemma_scan_plain(a, ls.drop_last());
        assert(ls[ls.len() - 1] != begin_line());
        assert((a + ls.drop_last()).push(ls.last()) =~= a + ls);
    }
}

proof fn lemma_scan_held(a: Seq<Seq<char>>, buf: Seq<Seq<char>>, ls: Seq<Seq<char>>)
    requires
        forall|i: int| 0 <= i < ls.len() ==> #[trigger] ls[i] != end_line(),
    ensures
        scan((a, Some(buf)), ls) == (a, Some(buf + ls)),
    decreases ls.len(),
{
    if ls.len() == 0 {
        assert(buf + ls =~= buf);
    } else {
        lemma_scan_held(a, buf, ls.drop_last());
        assert(ls[ls.len() - 1] != end_line());
        assert((buf + ls.drop_last()).push(ls.last()) =~= buf + ls);
    }
}

proof fn lemma_trim_idem(ls: Seq<Seq<char>>)
    ensures
        trim_lines(trim_lines(ls)) == trim_lines(ls),
        trim_lines(ls).len() <= ls.len(),
        trim_lines(ls) == ls.take(trim_lines(ls).len() as int),
        ls.len() > 0 ==> trim_lines(ls).len() > 0,
    decreases ls.len(),
{
    if ls.len() >= 2 && ls.last().len() == 0 {
        lemma_trim_idem(ls.drop_last());
        assert(ls.drop_last().take(trim_lines(ls).len() as int) =~= ls.take(trim_lines(ls).len() as int));
    } else {
        assert(ls.take(ls.len() as int) =~= ls);
    }
}

proof fn lemma_scan_good(st: Scan, ls: Seq<Seq<char>>)
    requires
        all_stable(st.0),
        none_begin(st.0),
        st.1 matches Some(buf) ==> all_stable(buf),
        all_stable(ls),
    ensures
        all_stable(scan(st, ls).0),
        none_begin(scan(st, ls).0),
        scan(st, ls).1 matches Some(buf) ==> all_stable(buf),
    decreases ls.len(),
{
    if ls.len() > 0 {
        assert(all_stable(ls.drop_last())) by {
            assert forall|i: int| 0 <= i < ls.drop_last().len() implies stable_line(#[trigger] ls.drop_last()[i]) by {
                assert(stable_line(ls[i]));
            }
        }
        lemma_scan_good(st, ls.drop_last());
        let s0 = scan(st, ls.drop_last());
        assert(stable_line(ls[ls.len() - 1]));
        let l = ls.last();
        match s0.1 {
            None => {
                if l != begin_line() {
                    let o = s0.0.push(l);
                    assert forall|i: int| 0 <= i < o.len() implies stable_line(#[trigger] o[i]) && o[i] != begin_line() by {
                        if i < s0.0.len() {
                            assert(stable_line(s0.0[i]));
                            assert(s0.0[i] != begin_line());
                        }
                    }
                }
            },
            Some(buf) => {
                if l != end_line() {
                    assert forall|i: int| 0 <= i < buf.push(l).len() implies stable_line(#[trigger] buf.push(l)[i]) by {
                        if i < buf.len() {
                            assert(stable_line(buf[i]));
                        }
                    }
                }
            },
        }
    }
}

/// Every line that survives a release can be read back as itself, and none
/// of them is a live begin marker.
proof fn lemma_released_good(current: Seq<char>)
    requires
        crlf_clean(current),
    ensures
        all_stable(released_lines(current)),
        none_begin(released_lines(current)),
{
    lemma_lines_no_newline(current);
    lemma_markers();
    let ls = lines_of(current);
    assert(all_stable(ls)) by {
        assert forall|i: int| 0 <= i < ls.len() implies stable_line(#[trigger] ls[i]) by {
            assert(no_newline(ls[i]));
        }
    }
    lemma_scan_good(scan_start(), ls);
    let st = scan(scan_start(), ls);
    let f = flushed(st);
    assert(all_stable(f) && none_begin(f)) by {
        match st.1 {
            None => {},
            Some(buf) => {
                let d = defused(buf);
                assert forall|i: int| 0 <= i < f.len() implies stable_line(#[trigger] f[i]) && f[i] != begin_line() by {
                    if i < st.0.len() {
                        assert(stable_line(st.0[i]));
                        assert(st.0[i] != begin_line());
                    } else {
                        let j = i - st.0.len();
                        assert(f[i] == d[j]);
                        assert(stable_line(buf[j]));
                        if buf[j] == begin_line() {
                            let x = defuse_prefix() + buf[j];
                            assert(d[j] == x);
                            assert(x.len() == 138);
                            assert(x.last() == '>');
                            assert forall|k: int| 0 <= k < x.len() implies x[k] != '\n' by {
                                if k < 48 {
                                    assert(defuse_prefix()[k] != '\n');
                                } else {
                                    assert(buf[j][k - 48] != '\n');
                                }
                            }
                        }
                    }
                }
            },
        }
    }
    lemma_trim_idem(f);
    let t = released_lines(current);
    assert forall|i: int| 0 <= i < t.len() implies stable_line(#[trigger] t[i]) && t[i] != begin_line() by {
        assert(t[i] == f[i]);
    }
}

/// Releasing twice is releasing once.
pub proof fn lemma_release_idempotent(current: Seq<char>)
    requires
        crlf_clean(current),
    ensures
        released(released(current)) == released(current),
{
    let t = released_lines(current);
    lemma_released_good(current);
    lemma_lines_join(t);
    lemma_scan_plain(Seq::<Seq<char>>::empty(), t);
    assert(Seq::<Seq<char>>::empty() + t =~= t);
    lemma_trim_idem(flushed(scan(scan_start(), lines_of(current))));
}

proof fn lemma_entries_shape(ds: Seq<Seq<char>>)
    requires
        names_one_line(ds),
    ensures
        forall|i: int|
            0 <= i < entries(ds).len() ==> {
                &&& no_newline(#[trigger] entries(ds)[i])
                &&& entries(ds)[i].len() >= 3
                &&& (entries(ds)[i][0] == '0' || entries(ds)[i][0] == ':')
            },
    decreases ds.len(),
{
    if ds.len() > 0 {
        let m = ds.drop_last();
        assert(names_one_line(m)) by {
            assert forall|i: int| 0 <= i < m.len() implies no_newline(#[trigger] m[i]) by {
                assert(no_newline(ds[i]));
            }
        }
        lemma_entries_shape(m);
        let d = ds.last();
        assert(no_newline(ds[ds.len() - 1]));
        let dl = domain_lines(d);
        assert forall|j: int| 0 <= j < dl.len() implies {
            &&& no_newline(#[trigger] dl[j])
            &&& dl[j].len() >= 3
            &&& (dl[j][0] == '0' || dl[j][0] == ':')
        } by {
            let x = dl[j];
            let (pre, rest) = if j == 0 {
                (ipv4_any(), d)
            } else if j == 1 {
                (ipv6_any(), d)
            } else if j == 2 {
                (ipv4_any(), www() + d)
            } else {
                (ipv6_any(), www() + d)
            };
            assert(x == pre + rest);
            assert forall|k: int| 0 <= k < x.len() implies x[k] != '\n' by {
                if k < pre.len() {
                } else if j >= 2 && k < pre.len() + 4 {
                } else if j >= 2 {
                    assert(x[k] == d[k - pre.len() - 4]);
                } else {
                    assert(x[k] == d[k - pre.len()]);
                }
            }
        }
        let e = entries(ds);
        assert(e == entries(m) + dl);
        assert forall|i: int| 0 <= i < e.len() implies {
            &&& no_newline(#[trigger] e[i])
            &&& e[i].len() >= 3
            &&& (e[i][0] == '0' || e[i][0] == ':')
        } by {
            if i < entries(m).len() {
                assert(e[i] == entries(m)[i]);
            } else {
                assert(e[i] == dl[i - entries(m).len()]);
            }
        }
    }
}

/// Reading back a file with our section in it gives the file without it.
pub proof fn lemma_release_fenced(current: Seq<char>, ds: Seq<Seq<char>>)
    requires
        crlf_clean(current),
        names_one_line(ds),
        ds.len() > 0,
        released(current).len() > 0,
    ensures
        released(render_spec(current, ds)) == released(current),
{
    lemma_markers();
    let t = released_lines(current);
    let r = released(current);
    lemma_released_good(current);
    lemma_join_len(t);
    assert(r.last() == '\n');
    let e = entries(ds);
    lemma_entries_shape(ds);
    let f = fence_lines(ds);
    let all = t + seq![Seq::<char>::empty()] + f;
    // the rendered text is the join of `all`
    lemma_join_append(t, seq![Seq::<char>::empty()]);
    lemma_join_append(t + seq![Seq::<char>::empty()], f);
    reveal_with_fuel(join, 2);
    assert(seq![Seq::<char>::empty()].drop_last() =~= Seq::<Seq<char>>::empty());
    assert(join(seq![Seq::<char>::empty()]) =~= seq!['\n']);
    assert(render_spec(current, ds) =~= join(all));
    // the lines read back
    assert(all_no_newline(all)) by {
        assert forall|i: int| 0 <= i < all.len() implies no_newline(#[trigger] all[i]) by {
            if i < t.len() {
                assert(stable_line(t[i]));
            } else if i == t.len() {
            } else if i == t.len() + 1 {
                assert(all[i] == begin_line());
            } else if i < t.len() + 1 + f.len() - 1 {
                assert(all[i] == e[i - t.len() - 2]);
            } else {
                assert(all[i] == end_line());
            }
        }
    }
    lemma_pieces_join(all, Seq::<char>::empty());
    assert(join(all) + Seq::<char>::empty() =~= join(all));
    let stripped = all.map_values(|l: Seq<char>| strip_cr(l));
    assert(lines_of(join(all)) =~= stripped);
    let e2 = e.map_values(|l: Seq<char>| strip_cr(l));
    assert(stripped =~= (t + seq![Seq::<char>::empty(), begin_line()]) + (e2 + seq![end_line()])) by {
        assert forall|i: int| 0 <= i < t.len() implies strip_cr(t[i]) == t[i] by {
            assert(stable_line(t[i]));
        }
    }
    // scanning them
    assert(none_begin(t + seq![Seq::<char>::empty()])) by {
        let u = t + seq![Seq::<char>::empty()];
        assert forall|i: int| 0 <= i < u.len() implies #[trigger] u[i] != begin_line() by {
            if i < t.len() {
                assert(t[i] != begin_line());
            } else {
                assert(u[i].len() == 0);
            }
        }
    }
    lemma_scan_plain(Seq::<Seq<char>>::empty(), t + seq![Seq::<char>::empty()]);
    let head = t + seq![Seq::<char>::empty(), begin_line()];
    assert(head =~= (t + seq![Seq::<char>::empty()]).push(begin_line()));
    assert(Seq::<Seq<char>>::empty() + (t + seq![Seq::<char>::empty()]) =~= t + seq![Seq::<char>::empty()]);
    assert(head.drop_last() =~= t + seq![Seq::<char>::empty()]);
    assert(head.last() == begin_line());
    assert(scan(scan_start(), t + seq![Seq::<char>::empty()]) == (t + seq![Seq::<char>::empty()], Option::<Seq<Seq<char>>>::None));
    assert(scan(scan_start(), head) == step(scan(scan_start(), head.drop_last()), head.last()));
    assert(scan(scan_start(), head) == (t + seq![Seq::<char>::empty()], Some(seq![begin_line()])));
    assert forall|i: int| 0 <= i < e2.len() implies #[trigger] e2[i] != end_line() by {
        let x = e[i];
        assert(x.len() >= 3 && (x[0] == '0' || x[0] == ':'));
        assert(strip_cr(x)[0] == x[0]);
    }
    lemma_scan_held(t + seq![Seq::<char>::empty()], seq![begin_line()], e2);
    let tail = e2 + seq![end_line()];
    assert(tail.drop_last() =~= e2);
    lemma_scan_append(scan_start(), head, tail);
    let fin = scan(scan_start(), lines_of(join(all)));
    assert(fin == (t + seq![Seq::<char>::empty()], Option::<Seq<Seq<char>>>::None));
    assert(flushed(fin) == t + seq![Seq::<char>::empty()]);
    assert((t + seq![Seq::<char>::empty()]).drop_last() =~= t);
    lemma_trim_idem(flushed(scan(scan_start(), lines_of(current))));
    assert(trim_lines(t + seq![Seq::<char>::empty()]) == trim_lines(t));
}

/// Rendering over a rendered file is rendering over the file it came from: an old
/// section is replaced, never stacked, and the rest of the file is kept.
pub proof fn lemma_render_replaces(current: Seq<char>, old_ds: Seq<Seq<char>>, ds: Seq<Seq<char>>)
    requires
        crlf_clean(current),
        names_one_line(old_ds),
        old_ds.len() > 0 ==> released(current).len() > 0,
    ensures
        render_spec(render_spec(current, old_ds), ds) == render_spec(current, ds),
{
    if old_ds.len() == 0 {
        lemma_release_idempotent(current);
    } else {
        lemma_release_fenced(current, old_ds);
    }
}

/// Rendering the same list twice changes nothing the second time.
pub proof fn lemma_render_idempotent(current: Seq<char>, ds: Seq<Seq<char>>)
    requires
        crlf_clean(current),
        names_one_line(ds),
        ds.len() > 0 ==> released(current).len() > 0,
    ensures
        render_spec(render_spec(current, ds), ds) == render_spec(current, ds),
{
    lemma_render_replaces(current, ds, ds);
}

/// Taking the section down gives back the file as it was without it.
pub proof fn lemma_render_restores(current: Seq<char>, ds: Seq<Seq<char>>)
    requires
        crlf_clean(current),
        names_one_line(ds),
        ds.len() > 0 ==> released(current).len() > 0,
    ensures
        render_spec(render_spec(current, ds), Seq::<Seq<char>>::empty()) == released(current),
{
    lemma_render_replaces(current, ds, Seq::<Seq<char>>::empty());
}

/// Our section goes at the end; everything before it is the file without it.
pub proof fn lemma_render_appends(current: Seq<char>, ds: Seq<Seq<char>>)
    requires
        ds.len() > 0,
    ensures
        render_spec(current, ds) == released(current) + seq!['\n'] + join(fence_lines(ds)),
{
    lemma_join_len(released_lines(current));
}

/// No line left after a release is a live begin marker: a stray one is
/// defused, so it can never swallow the lines that follow it.
pub proof fn lemma_release_defuses(current: Seq<char>)
    requires
        crlf_clean(current),
    ensures
        forall|i: int|
            0 <= i < lines_of(released(current)).len() ==> #[trigger] lines_of(released(current))[i]
                != begin_line(),
{
    lemma_released_good(current);
    lemma_lines_join(released_lines(current));
}

/// A file written the Unix way: it ends in a newline, holds no carriage
/// return, and has no blank line at its end.
pub open spec fn unix_text(s: Seq<char>) -> bool {
    &&& s.len() > 0
    &&& s.last() == '\n'
    &&& !s.contains('\r')
    &&& !(s.len() >= 2 && s[s.len() - 2] == '\n')
}

/// The pieces of a text, written back with their newlines, are the text.
proof fn lemma_join_pieces(s: Seq<char>)
    ensures
        join(pieces(s).drop_last()) + pieces(s).last() == s,
    decreases s.len(),
{
    lemma_pieces_nonempty(s);
    if s.len() == 0 {
        assert(pieces(s).drop_last() =~= Seq::<Seq<char>>::empty());
        assert(join(pieces(s).drop_last()) + pieces(s).last() =~= s);
    } else {
        let t = s.drop_last();
        lemma_join_pieces(t);
        lemma_pieces_nonempty(t);
        let p = pieces(t);
        if s.last() == '\n' {
            assert(pieces(s) == p.push(Seq::<char>::empty()));
            assert(pieces(s).drop_last() =~= p);
            assert(pieces(s).last() =~= Seq::<char>::empty());
            assert(join(p) == join(p.drop_last()) + p.last().push('\n'));
            assert(join(p.drop_last()) + p.last().push('\n') =~= (join(p.drop_last()) + p.last()).push('\n'));
            assert(t.push('\n') =~= s);
            assert(join(p) + pieces(s).last() =~= join(p));
        } else {
            assert(pieces(s).drop_last() =~= p.drop_last());
            assert(pieces(s).last() == p.last().push(s.last()));
            assert(join(p.drop_last()) + p.last().push(s.last()) =~= (join(p.drop_last()) + p.last()).push(
                s.last(),
            ));
            assert(t.push(s.last()) =~= s);
        }
    }
}

/// A text without carriage returns cuts into pieces without them.
proof fn lemma_pieces_no_cr(s: Seq<char>)
    requires
        !s.contains('\r'),
    ensures
        forall|i: int| 0 <= i < pieces(s).len() ==> !(#[trigger] pieces(s)[i]).contains('\r'),
    decreases s.len(),
{
    lemma_pieces_nonempty(s);
    if s.len() > 0 {
        let t = s.drop_last();
        assert(!t.contains('\r')) by {
            if t.contains('\r') {
                let k = choose|k: int| 0 <= k < t.len() && t[k] == '\r';
                assert(s[k] == '\r');
            }
        }
        lemma_pieces_no_cr(t);
        lemma_pieces_nonempty(t);
        let p = pieces(t);
        assert forall|i: int| 0 <= i < pieces(s).len() implies !(#[trigger] pieces(s)[i]).contains('\r') by {
            if s.last() == '\n' {
                if i < p.len() {
                    assert(pieces(s)[i] == p[i]);
                } else {
                    assert(pieces(s)[i] =~= Seq::<char>::empty());
                }
            } else if i == p.len() - 1 {
                let q = p[i].push(s.last());
                assert(pieces(s)[i] == q);
                if q.contains('\r') {
                    let k = choose|k: int| 0 <= k < q.len() && q[k] == '\r';
                    if k < p[i].len() {
                        assert(p[i][k] == '\r');
                    } else {
                        assert(s[s.len() - 1] == '\r');
                    }
                }
            } else {
                assert(pieces(s)[i] == p[i]);
            }
        }
    }
}

/// The lines of a Unix text are its pieces, and written back they are the text.
proof fn lemma_unix_lines(s: Seq<char>)
    requires
        unix_text(s),
    ensures
        join(lines_of(s)) == s,
        crlf_clean(s),
        lines_of(s).len() > 0,
        lines_of(s).len() >= 2 ==> lines_of(s).last().len() > 0,
{
    let t = s.drop_last();
    lemma_pieces_nonempty(t);
    lemma_pieces_nonempty(s);
    let p = pieces(s);
    assert(p == pieces(t).push(Seq::<char>::empty()));
    assert(p.drop_last() =~= pieces(t));
    lemma_pieces_no_cr(s);
    assert forall|i: int| 0 <= i < p.len() - 1 implies strip_cr(#[trigger] p[i]) == p[i] by {
        if p[i].len() > 0 && p[i].last() == '\r' {
            assert(p[i][p[i].len() - 1] == '\r');
            assert(p[i].contains('\r'));
        }
    }
    assert(lines_of(s) =~= p.drop_last());
    lemma_join_pieces(s);
    assert(join(p.drop_last()) + Seq::<char>::empty() =~= join(p.drop_last()));
    assert forall|i: int| 0 <= i < lines_of(s).len() implies strip_cr(#[trigger] lines_of(s)[i]) == lines_of(s)[i] by {
        assert(lines_of(s)[i] == p[i]);
    }
    if pieces(t).len() >= 2 {
        assert(t.len() > 0);
        assert(t.last() == s[s.len() - 2]);
        let q = pieces(t.drop_last());
        lemma_pieces_nonempty(t.drop_last());
        assert(pieces(t) == q.update(q.len() - 1, q.last().push(t.last())));
        assert(pieces(t).last() == q.last().push(t.last()));
        assert(pieces(t).last().len() > 0);
    }
}

/// A hosts file we never touched comes back exactly: written the Unix way
/// and holding no begin marker of ours, it is its own release, so putting a
/// section in and taking it out again gives it back character for character.
pub proof fn lemma_round_trip(current: Seq<char>, ds: Seq<Seq<char>>)
    requires
        unix_text(current),
        none_begin(lines_of(current)),
        names_one_line(ds),
    ensures
        released(current) == current,
        render_spec(render_spec(current, ds), Seq::<Seq<char>>::empty()) == current,
{
    lemma_unix_lines(current);
    let ls = lines_of(current);
    lemma_scan_plain(Seq::<Seq<char>>::empty(), ls);
    assert(Seq::<Seq<char>>::empty() + ls =~= ls);
    assert(flushed(scan(scan_start(), ls)) == ls);
    assert(trim_lines(ls) == ls);
    assert(released_lines(current) == ls);
    lemma_render_restores(current, ds);
}

/// Where a line read by the scan can have come from: what was kept or held
/// before, or the lines read.
pub open spec fn scan_origin(st: Scan, ls: Seq<Seq<char>>, x: Seq<char>) -> bool {
    ||| st.0.contains(x)
    ||| held(st).contains(x)
    ||| ls.contains(x)
}

/// The lines held back after an unmatched begin marker, if any.
pub open spec fn held(st: Scan) -> Seq<Seq<char>> {
    match st.1 {
        Some(b) => b,
        None => Seq::<Seq<char>>::empty(),
    }
}

/// The scan only keeps or holds lines it was given.
proof fn lemma_scan_from(st: Scan, ls: Seq<Seq<char>>)
    ensures
        forall|x: Seq<char>| #[trigger] scan(st, ls).0.contains(x) ==> scan_origin(st, ls, x),
        forall|x: Seq<char>| #[trigger] held(scan(st, ls)).contains(x) ==> scan_origin(st, ls, x),
    decreases ls.len(),
{
    if ls.len() > 0 {
        let m = ls.drop_last();
        let l = ls.last();
        lemma_scan_from(st, m);
        let s1 = scan(st, m);
        assert forall|x: Seq<char>| scan_origin(st, m, x) implies scan_origin(st, ls, x) by {
            if m.contains(x) {
                let k = choose|k: int| 0 <= k < m.len() && m[k] == x;
                assert(ls[k] == x);
            }
        }
        assert(ls[ls.len() - 1] == l);
        assert(ls.contains(l));
        assert forall|x: Seq<char>| #[trigger] scan(st, ls).0.contains(x) implies scan_origin(st, ls, x) by {
            if !s1.0.contains(x) {
                assert(s1.1 is None && x == l) by {
                    let k = choose|k: int| 0 <= k < scan(st, ls).0.len() && scan(st, ls).0[k] == x;
                    if s1.1 is None && l != begin_line() {
                        assert(scan(st, ls).0 == s1.0.push(l));
                        if k < s1.0.len() {
                            assert(s1.0[k] == x);
                        }
                    } else {
                        assert(scan(st, ls).0 == s1.0);
                    }
                }
            }
        }
        assert forall|x: Seq<char>| #[trigger] held(scan(st, ls)).contains(x) implies scan_origin(st, ls, x) by {
            let b = held(scan(st, ls));
            let k = choose|k: int| 0 <= k < b.len() && b[k] == x;
            match s1.1 {
                None => {
                    if l == begin_line() {
                        assert(b == seq![l]);
                        assert(x == l);
                    } else {
                        assert(b.len() == 0);
                    }
                },
                Some(b1) => {
                    if l == end_line() {
                        assert(b.len() == 0);
                    } else {
                        assert(b == b1.push(l));
                        if k < b1.len() {
                            assert(b1[k] == x);
                            assert(held(s1).contains(x));
                        }
                    }
                },
            }
        }
    }
}

/// Every line left after a release was a line of the file, or a defused
/// begin marker.
proof fn lemma_released_from(c: Seq<char>)
    ensures
        forall|y: Seq<char>|
            #[trigger] released_lines(c).contains(y) ==> lines_of(c).contains(y) || y == defuse_prefix()
                + begin_line(),
{
    let ls = lines_of(c);
    let st = scan(scan_start(), ls);
    lemma_scan_from(scan_start(), ls);
    let f = flushed(st);
    lemma_trim_idem(f);
    assert forall|y: Seq<char>| #[trigger] released_lines(c).contains(y) implies ls.contains(y) || y
        == defuse_prefix() + begin_line() by {
        let k = choose|k: int| 0 <= k < released_lines(c).len() && released_lines(c)[k] == y;
        assert(f[k] == y);
        match st.1 {
            None => {
                assert(f == st.0);
                assert(st.0.contains(y));
            },
            Some(buf) => {
                assert(f == st.0 + defused(buf));
                if k < st.0.len() {
                    assert(st.0[k] == y);
                    assert(st.0.contains(y));
                } else {
                    let x = buf[k - st.0.len()];
                    assert(y == defuse(x));
                    assert(held(st) == buf);
                    assert(buf.contains(x));
                    assert(scan_origin(scan_start(), ls, x));
                }
            },
        }
    }
}

/// Each line is shorter than the text it is written into.
proof fn lemma_join_bounds(ls: Seq<Seq<char>>)
    ensures
        forall|k: int| 0 <= k < ls.len() ==> (#[trigger] ls[k]).len() < join(ls).len(),
    decreases ls.len(),
{
    if ls.len() > 0 {
        lemma_join_bounds(ls.drop_last());
        assert forall|k: int| 0 <= k < ls.len() implies (#[trigger] ls[k]).len() < join(ls).len() by {
            if k < ls.len() - 1 {
                assert(ls.drop_last()[k] == ls[k]);
            }
        }
    }
}

pub open spec fn ends_cr(l: Seq<char>) -> bool {
    l.len() > 0 && l.last() == '\r'
}

/// Climbing from a line ending in a carriage return, one always finds a
/// longer one, as far as asked.
proof fn lemma_cr_climb(ls: Seq<Seq<char>>, i: int, m: nat)
    requires
        0 <= i < ls.len(),
        ends_cr(ls[i]),
        forall|j: int|
            0 <= j < ls.len() && ends_cr(#[trigger] ls[j]) ==> exists|k: int|
                0 <= k < ls.len() && ends_cr(ls[k]) && #[trigger] ls[k].len() > ls[j].len(),
    ensures
        exists|k: int| 0 <= k < ls.len() && ends_cr(ls[k]) && #[trigger] ls[k].len() >= ls[i].len() + m,
    decreases m,
{
    if m == 0 {
        assert(ls[i].len() >= ls[i].len() + 0);
    } else {
        lemma_cr_climb(ls, i, (m - 1) as nat);
        let k = choose|k: int| 0 <= k < ls.len() && ends_cr(ls[k]) && #[trigger] ls[k].len() >= ls[i].len() + (m - 1);
        assert(ends_cr(ls[k]));
        let k2 = choose|k2: int| 0 <= k2 < ls.len() && ends_cr(ls[k2]) && #[trigger] ls[k2].len() > ls[k].len();
        assert(ls[k2].len() >= ls[i].len() + m);
    }
}

/// Read back, a file that is its own release gives its released lines with
/// one carriage return stripped from each.
proof fn lemma_fixed_lines(c: Seq<char>)
    requires
        released(c) == c,
    ensures
        all_no_newline(released_lines(c)),
        lines_of(c) == released_lines(c).map_values(|l: Seq<char>| strip_cr(l)),
{
    let lsr = released_lines(c);
    let f = flushed(scan(scan_start(), lines_of(c)));
    lemma_flushed_no_newline(c);
    lemma_trim_idem(f);
    assert forall|i: int| 0 <= i < lsr.len() implies no_newline(#[trigger] lsr[i]) by {
        assert(lsr[i] == f[i]);
    }
    lemma_pieces_join(lsr, Seq::<char>::empty());
    assert(join(lsr) + Seq::<char>::empty() =~= join(lsr));
    let p = pieces(c);
    assert(p == lsr + seq![Seq::<char>::empty()]);
    assert(p.drop_last() =~= lsr);
    assert(lines_of(c) =~= lsr.map_values(|l: Seq<char>| strip_cr(l)));
}

/// In a file that is its own release, a released line ending in a carriage
/// return came from a longer one.
proof fn lemma_cr_step(c: Seq<char>)
    requires
        released(c) == c,
    ensures
        forall|j: int|
            0 <= j < released_lines(c).len() && ends_cr(#[trigger] released_lines(c)[j]) ==> exists|k: int|
                0 <= k < released_lines(c).len() && ends_cr(released_lines(c)[k]) && #[trigger] released_lines(
                    c,
                )[k].len() > released_lines(c)[j].len(),
{
    let lsr = released_lines(c);
    let lc = lines_of(c);
    lemma_fixed_lines(c);
    lemma_released_from(c);
    lemma_markers();
    assert forall|j: int| 0 <= j < lsr.len() && ends_cr(#[trigger] lsr[j]) implies exists|k: int|
        0 <= k < lsr.len() && ends_cr(lsr[k]) && #[trigger] lsr[k].len() > lsr[j].len() by {
        let y = lsr[j];
        assert(lsr.contains(y));
        let dm = defuse_prefix() + begin_line();
        if y == dm {
            assert(dm.last() == begin_line().last());
        }
        assert(lc.contains(y));
        let k = choose|k: int| 0 <= k < lc.len() && lc[k] == y;
        assert(lc[k] == strip_cr(lsr[k]));
        assert(ends_cr(lsr[k]) && lsr[k].len() > y.len());
    }
}

/// A file that is already its own release has Unix line ends: no line keeps
/// a carriage return that "\r\n" would hide.
proof fn lemma_released_fixed_clean(c: Seq<char>)
    requires
        released(c) == c,
    ensures
        crlf_clean(c),
{
    let lsr = released_lines(c);
    let lc = lines_of(c);
    lemma_fixed_lines(c);
    lemma_cr_step(c);
    lemma_join_bounds(lsr);
    assert forall|i: int| 0 <= i < lsr.len() implies !ends_cr(#[trigger] lsr[i]) by {
        if ends_cr(lsr[i]) {
            lemma_cr_climb(lsr, i, c.len() + 1);
            let k = choose|k: int|
                0 <= k < lsr.len() && ends_cr(lsr[k]) && #[trigger] lsr[k].len() >= lsr[i].len() + (c.len() + 1);
            assert(lsr[k].len() < join(lsr).len());
        }
    }
    assert forall|i: int| 0 <= i < lc.len() implies strip_cr(#[trigger] lc[i]) == lc[i] by {
        assert(lc[i] == strip_cr(lsr[i]));
        assert(!ends_cr(lsr[i]));
    }
}

/// A hosts file already in the form a release gives (no section of ours, no
/// stray begin marker, no blank lines at its end, Unix line ends) comes back
/// exactly after a section is put in and taken out again.
pub proof fn lemma_round_trip_released(current: Seq<char>, ds: Seq<Seq<char>>)
    requires
        render_spec(current, Seq::<Seq<char>>::empty()) == current,
        names_one_line(ds),
        ds.len() > 0 ==> current.len() > 0,
    ensures
        render_spec(render_spec(current, ds), Seq::<Seq<char>>::empty()) == current,
{
    assert(released(current) == current);
    lemma_released_fixed_clean(current);
    lemma_render_restores(current, ds);
}

// ---------------------------------------------------------------------------
// The implementation.
// ---------------------------------------------------------------------------

/// The character buffers `out`, `held` and `hbuf` stand for the scan `st`.
pub open spec fn tracks(out: Seq<char>, held: bool, hbuf: Seq<char>, st: Scan) -> bool {
    &&& out == join(st.0)
    &&& held == st.1 is Some
    &&& st.1 matches Some(buf) ==> hbuf == join(defused(buf))
}

/// One line of the old file.
fn feed(
    out: &mut Vec<char>,
    held: &mut bool,
    hbuf: &mut Vec<char>,
    l: &Vec<char>,
    begin: &Vec<char>,
    end: &Vec<char>,
    prefix: &Vec<char>,
    Ghost(st): Ghost<Scan>,
)
    requires
        tracks(old(out)@, *old(held), old(hbuf)@, st),
        begin@ == begin_line(),
        end@ == end_line(),
        prefix@ == defuse_prefix(),
    ensures
        tracks(final(out)@, *final(held), final(hbuf)@, step(st, l@)),
{
    if !*held {
        if chars_eq(l, begin) {
            *held = true;
            hbuf.clear();
            push_all(hbuf, prefix);
            push_all(hbuf, l);
            hbuf.push('\n');
            proof {
                let one = seq![l@];
                assert(defused(one) =~= seq![defuse(l@)]);
                assert(defuse(l@) == defuse_prefix() + l@);
                assert(seq![defuse(l@)].drop_last() =~= Seq::<Seq<char>>::empty());
                assert(join(seq![defuse(l@)]) == join(Seq::<Seq<char>>::empty()) + defuse(l@).push('\n'));
                assert(hbuf@ =~= join(defused(one)));
                assert(step(st, l@) == (st.0, Some(one)));
            }
        } else {
            push_all(out, l);
            out.push('\n');
            proof {
                assert(st.0.push(l@).drop_last() =~= st.0);
                assert(out@ =~= join(st.0.push(l@)));
            }
        }
    } else {
        let ghost buf = st.1->0;
        if chars_eq(l, end) {
            *held = false;
            hbuf.clear();
        } else {
            let ghost before = hbuf@;
            let is_begin = chars_eq(l, begin);
            if is_begin {
                push_all(hbuf, prefix);
            }
            push_all(hbuf, l);
            hbuf.push('\n');
            proof {
                assert(hbuf@ =~= before + defuse(l@).push('\n'));
                assert(defused(buf.push(l@)) =~= defused(buf).push(defuse(l@)));
                assert(defused(buf).push(defuse(l@)).drop_last() =~= defused(buf));
                assert(hbuf@ =~= join(defused(buf.push(l@))));
            }
        }
    }
}

/// The lines for one name, appended to `out`.
fn push_domain(out: &mut Vec<char>, d: &Vec<char>, v4: &Vec<char>, v6: &Vec<char>, w: &Vec<char>)
    requires
        v4@ == ipv4_any(),
        v6@ == ipv6_any(),
        w@ == www(),
    ensures
        final(out)@ == old(out)@ + join(domain_lines(d@)),
{
    push_all(out, v4);
    push_all(out, d);
    out.push('\n');
    push_all(out, v6);
    push_all(out, d);
    out.push('\n');
    if alias_www(d) {
        push_all(out, v4);
        push_all(out, w);
        push_all(out, d);
        out.push('\n');
        push_all(out, v6);
        push_all(out, w);
        push_all(out, d);
        out.push('\n');
        proof {
            reveal_with_fuel(join, 5);
            let dl = domain_lines(d@);
            assert(dl.drop_last().drop_last().drop_last().drop_last() =~= Seq::<Seq<char>>::empty());
            assert(dl.drop_last().drop_last().drop_last() =~= seq![ipv4_any() + d@]);
            assert(dl.drop_last().drop_last() =~= seq![ipv4_any() + d@, ipv6_any() + d@]);
            assert(dl.drop_last() =~= seq![ipv4_any() + d@, ipv6_any() + d@, ipv4_any() + www() + d@]);
            assert(final(out)@ =~= old(out)@ + join(dl));
        }
    } else {
        proof {
            reveal_with_fuel(join, 3);
            let dl = domain_lines(d@);
            assert(dl.drop_last().drop_last() =~= Seq::<Seq<char>>::empty());
            assert(dl.drop_last() =~= seq![ipv4_any() + d@]);
            assert(final(out)@ =~= old(out)@ + join(dl));
        }
    }
}

/// The hosts file with our section replaced by one for `domains`
/// (or removed, if `domains` is empty). Pure; easy to test.
pub fn render(current: &str, domains: &[String]) -> (r: String)
    ensures
        r@ == render_spec(current@, views(domains@)),
{
    let cur = chars_of(current);
    let begin = chars_of(BEGIN);
    let end = chars_of(END);
    let prefix = chars_of(DEFUSE);
    let mut out: Vec<char> = Vec::new();
    let mut held = false;
    let mut hbuf: Vec<char> = Vec::new();
    let mut line: Vec<char> = Vec::new();
    let ghost mut st: Scan = scan_start();
    proof {
        lemma_pieces_nonempty(cur@.take(0));
        assert(cur@.take(0) =~= Seq::<char>::empty());
        assert(pieces(cur@.take(0)).drop_last() =~= Seq::<Seq<char>>::empty());
    }
    let mut i: usize = 0;
    while i < cur.len()
        invariant
            i <= cur@.len(),
            begin@ == begin_line(),
            end@ == end_line(),
            prefix@ == defuse_prefix(),
            pieces(cur@.take(i as int)).len() >= 1,
            line@ == pieces(cur@.take(i as int)).last(),
            st == scan(
                scan_start(),
                pieces(cur@.take(i as int)).drop_last().map_values(|l: Seq<char>| strip_cr(l)),
            ),
            tracks(out@, held, hbuf@, st),
        decreases cur@.len() - i,
    {
        let c = cur[i];
        let ghost p = pieces(cur@.take(i as int));
        proof {
            assert(cur@.take(i + 1).drop_last() =~= cur@.take(i as int));
            assert(cur@.take(i + 1).last() == c);
        }
        if c == '\n' {
            let ln = line.len();
            if ln > 0 && line[ln - 1] == '\r' {
                line.pop();
            }
            assert(line@ == strip_cr(p.last()));
            feed(&mut out, &mut held, &mut hbuf, &line, &begin, &end, &prefix, Ghost(st));
            proof {
                let q = pieces(cur@.take(i + 1));
                assert(q == p.push(Seq::<char>::empty()));
                assert(q.drop_last() == p);
                let done = p.drop_last().map_values(|l: Seq<char>| strip_cr(l));
                assert(p.map_values(|l: Seq<char>| strip_cr(l)) =~= done.push(strip_cr(p.last())));
                assert(done.push(strip_cr(p.last())).drop_last() =~= done);
                assert(scan(scan_start(), done.push(line@)) == step(scan(scan_start(), done), line@));
                st = step(st, line@);
            }
            line.clear();
        } else {
            line.push(c);
            proof {
                let q = pieces(cur@.take(i + 1));
                assert(q.drop_last() =~= p.drop_last());
            }
        }
        i = i + 1;
    }
    proof {
        assert(cur@.take(cur@.len() as int) == cur@);
    }
    if line.len() > 0 {
        feed(&mut out, &mut held, &mut hbuf, &line, &begin, &end, &prefix, Ghost(st));
        proof {
            let p = pieces(cur@);
            let done = p.drop_last().map_values(|l: Seq<char>| strip_cr(l));
            assert(lines_of(cur@) == done.push(p.last()));
            assert(done.push(p.last()).drop_last() =~= done);
            assert(scan(scan_start(), done.push(line@)) == step(scan(scan_start(), done), line@));
            st = step(st, line@);
        }
    }
    assert(st == scan(scan_start(), lines_of(cur@)));
    let ghost mut ls: Seq<Seq<char>> = flushed(st);
    if held {
        push_all(&mut out, &hbuf);
        proof {
            lemma_join_append(st.0, defused(st.1->0));
        }
    }
    assert(out@ == join(ls));
    proof {
        lemma_flushed_no_newline(cur@);
    }
    while out.len() >= 2 && out[out.len() - 1] == '\n' && out[out.len() - 2] == '\n'
        invariant
            out@ == join(ls),
            all_no_newline(ls),
            trim_lines(ls) == released_lines(cur@),
        decreases out@.len(),
    {
        proof {
            lemma_join_blank_tail(ls);
        }
        out.pop();
        proof {
            let m = ls.drop_last();
            assert forall|k: int| 0 <= k < m.len() implies no_newline(#[trigger] m[k]) by {
                assert(no_newline(ls[k]));
            }
            ls = m;
        }
    }
    proof {
        lemma_join_blank_tail(ls);
        assert(trim_lines(ls) == ls);
    }
    assert(out@ == released(current@));
    if domains.len() > 0 {
        let n = out.len();
        if n > 0 && out[n - 1] != '\n' {
            out.push('\n');
        }
        out.push('\n');
        let ghost base = out@;
        push_all(&mut out, &begin);
        out.push('\n');
        proof {
            reveal_with_fuel(join, 2);
            assert(seq![begin_line()].drop_last() =~= Seq::<Seq<char>>::empty());
            assert(out@ == base + join(seq![begin_line()] + entries(views(domains@).take(0))));
            assert(seq![begin_line()] + entries(views(domains@).take(0)) =~= seq![begin_line()]);
        }
        let v4 = chars_of("0.0.0.0 ");
        let v6 = chars_of(":: ");
        let w = chars_of("www.");
        proof {
            reveal_strlit("0.0.0.0 ");
            reveal_strlit(":: ");
            reveal_strlit("www.");
            assert(v4@ =~= ipv4_any());
            assert(v6@ =~= ipv6_any());
            assert(w@ =~= www());
        }
        let mut k: usize = 0;
        while k < domains.len()
            invariant
                k <= domains@.len(),
                v4@ == ipv4_any(),
                v6@ == ipv6_any(),
                w@ == www(),
                out@ == base + join(seq![begin_line()] + entries(views(domains@).take(k as int))),
            decreases domains@.len() - k,
        {
            let d = chars_of(domains[k].as_str());
            let ghost ds = views(domains@).take(k as int);
            proof {
                assert(views(domains@).take(k + 1).drop_last() =~= ds);
                assert(views(domains@).take(k + 1).last() == d@);
                assert(seq![begin_line()] + entries(views(domains@).take(k + 1)) =~= (seq![begin_line()]
                    + entries(ds)) + domain_lines(d@));
                lemma_join_append(seq![begin_line()] + entries(ds), domain_lines(d@));
            }
            push_domain(&mut out, &d, &v4, &v6, &w);
            k = k + 1;
        }
        let ghost mid = out@;
        push_all(&mut out, &end);
        out.push('\n');
        proof {
            assert(views(domains@).take(domains@.len() as int) == views(domains@));
            let all = seq![begin_line()] + entries(views(domains@));
            lemma_join_append(all, seq![end_line()]);
            reveal_with_fuel(join, 2);
            assert(seq![end_line()].drop_last() =~= Seq::<Seq<char>>::empty());
            assert(join(seq![end_line()]) =~= end_line().push('\n'));
            assert(out@ =~= base + join(fence_lines(views(domains@))));
        }
    }
    string_of(&out)
}

/// Whether `d` also gets its "www." form blocked.
fn alias_www(d: &Vec<char>) -> (r: bool)
    ensures
        r == adds_www(d@),
{
    let n = d.len();
    let starts = n >= 4 && d[0] == 'w' && d[1] == 'w' && d[2] == 'w' && d[3] == '.';
    proof {
        if n >= 4 {
            assert(starts == (d@.take(4) =~= www()));
        }
    }
    if starts {
        return false;
    }
    let mut dots: usize = 0;
    let mut i: usize = 0;
    while i < n
        invariant
            n == d@.len(),
            i <= n,
            dots == count_dots(d@.take(i as int)),
            dots <= i,
        decreases n - i,
    {
        assert(d@.take(i + 1).drop_last() =~= d@.take(i as int));
        if d[i] == '.' {
            dots = dots + 1;
        }
        i = i + 1;
    }
    assert(d@.take(n as int) == d@);
    dots == 1
}

} // verus!
