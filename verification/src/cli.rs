//! Words the command line prints, worked out from what the person asked.

use vstd::prelude::*;

use crate::blocklist::everything;
use crate::text::{contains_string, decimal, decimal_chars, string_of, views};

verus! {

/// The items with `sep` between them.
pub open spec fn joined(items: Seq<Seq<char>>, sep: Seq<char>) -> Seq<char>
    decreases items.len(),
{
    if items.len() == 0 {
        Seq::<char>::empty()
    } else if items.len() == 1 {
        items[0]
    } else {
        joined(items.drop_last(), sep) + sep + items.last()
    }
}

/// `items.join(sep)`.
pub fn join(items: &[String], sep: &str) -> (r: String)
    ensures
        r@ == joined(views(items@), sep@),
{
    let mut m = String::new();
    let mut i: usize = 0;
    while i < items.len()
        invariant
            i <= items@.len(),
            m@ == joined(views(items@).take(i as int), sep@),
        decreases items@.len() - i,
    {
        proof {
            assert(views(items@).take(i + 1).drop_last() =~= views(items@).take(i as int));
            assert(views(items@).take(i + 1).last() == items@[i as int]@);
            if i == 0 {
                assert(views(items@).take(0) =~= Seq::<Seq<char>>::empty());
                assert(views(items@).take(1)[0] == items@[0]@);
            }
        }
        if i > 0 {
            m.append(sep);
        }
        m.append(items[i].as_str());
        proof {
            if i == 0 {
                assert(m@ =~= items@[0]@);
            }
        }
        i = i + 1;
    }
    assert(views(items@).take(items@.len() as int) =~= views(items@));
    m
}

/// What a request turns off, in words: "everything" when that is among
/// the names, else the names themselves.
pub fn selection_text(only: &[String]) -> (r: String)
    ensures
        views(only@).contains(everything()) ==> r@ == everything(),
        !views(only@).contains(everything()) ==> r@ == joined(views(only@), ", "@),
{
    let every = String::from_str("everything");
    proof {
        reveal_strlit("everything");
        assert(every@ =~= everything());
    }
    if contains_string(only, &every) {
        every
    } else {
        join(only, ", ")
    }
}

/// What `tto doctor` concludes from the number of failed checks: fine, or
/// "N problem(s)".
pub fn verdict(bad: u64) -> (r: Result<(), String>)
    ensures
        bad == 0 ==> r is Ok,
        bad > 0 ==> (r matches Err(m) && m@ == decimal(bad as nat) + " problem(s)"@),
{
    if bad == 0 {
        return Ok(());
    }
    let mut m = string_of(&decimal_chars(bad));
    m.append(" problem(s)");
    Err(m)
}

} // verus!
