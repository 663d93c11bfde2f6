//! The menu bar app's model: what is ticked, what the helper last said,
//! and which items the menu shows. The drawing happens around it.

use vstd::prelude::*;

use crate::blocklist::Blocklist;
use crate::cli::{join, joined};
use crate::state::State;
use crate::text::{copy_strings, views};
use crate::when::{describe, describes, remaining, remaining_spec};

verus! {

pub open spec fn preset_labels() -> Seq<Seq<char>> {
    seq![
        "For 1 hour"@,
        "For 2 hours"@,
        "For 4 hours"@,
        "Tonight, until 7am"@,
        "The rest of today"@,
        "The weekend"@,
    ]
}

pub open spec fn preset_specs() -> Seq<Seq<char>> {
    seq!["1h"@, "2h"@, "4h"@, "tonight"@, "today"@, "weekend"@]
}

/// The preset durations: a label for the menu and what it asks for.
pub fn presets() -> (v: Vec<(&'static str, &'static str)>)
    ensures
        v@.len() == 6,
        forall|i: int|
            0 <= i < 6 ==> (#[trigger] v@[i]).0@ == preset_labels()[i] && v@[i].1@
                == preset_specs()[i],
{
    let v: Vec<(&'static str, &'static str)> = vec![
        ("For 1 hour", "1h"),
        ("For 2 hours", "2h"),
        ("For 4 hours", "4h"),
        ("Tonight, until 7am", "tonight"),
        ("The rest of today", "today"),
        ("The weekend", "weekend"),
    ];
    v
}

/// What a menu item does when chosen. There is nothing that ends a block.
#[derive(Debug, Clone, Copy, PartialEq, Eq, Structural)]
pub enum MenuAction {
    /// Turn off the ticked categories for the preset with this index.
    Preset(usize),
    /// Tick or untick the category with this index.
    Toggle(usize),
    Install,
    Recovery,
    Quit,
}

/// A ticked or unticked category in "What to turn off".
#[derive(Debug)]
pub struct Check {
    pub title: String,
    pub tooltip: String,
    pub on: bool,
    pub tag: usize,
}

#[derive(Debug)]
pub enum Entry {
    /// A line of text that cannot be chosen.
    Label(String),
    Action { title: String, action: MenuAction, key: String },
    Separator,
    Submenu { title: String, items: Vec<Check> },
}

/// What the last status request to the helper came to.
#[derive(Debug)]
pub enum Observed {
    Answered(State),
    NotInstalled,
    /// Any other failure: what was known is kept.
    Failed,
}

pub struct MenuState {
    /// Category names ticked in "What to turn off". Default: all.
    pub selected: Vec<String>,
    pub last: Option<State>,
    pub installed: bool,
}

pub open spec fn is_action(e: Entry, title: Seq<char>, action: MenuAction) -> bool {
    e matches Entry::Action { title: t, action: a, key: _ } && t@ == title && a == action
}

pub open spec fn is_label(e: Entry, text: Seq<char>) -> bool {
    e matches Entry::Label(t) && t@ == text
}

/// The block shown as on at `now`, if the helper last reported one.
pub open spec fn shown_block(last: Option<State>, now: u64) -> Option<State> {
    match last {
        Some(s) => if s.spec_active_at(now) {
            Some(s)
        } else {
            None
        },
        None => None,
    }
}

impl MenuState {
    /// Everything ticked, nothing known yet.
    pub fn new(list: &Blocklist) -> (m: Self)
        ensures
            views(m.selected@) == list.keys(),
            m.last is None,
            !m.installed,
    {
        let names = list.names();
        let mut selected: Vec<String> = Vec::new();
        let mut i: usize = 0;
        while i < names.len()
            invariant
                i <= names@.len(),
                names@.len() == list.keys().len(),
                forall|j: int| 0 <= j < names@.len() ==> (#[trigger] names@[j])@ == list.keys()[j],
                views(selected@) == list.keys().take(i as int),
            decreases names@.len() - i,
        {
            selected.push(String::from_str(names[i]));
            assert(list.keys().take(i + 1) =~= list.keys().take(i as int).push(names@[i as int]@));
            assert(views(selected@) =~= list.keys().take(i as int).push(names@[i as int]@));
            i = i + 1;
        }
        assert(list.keys().take(list.keys().len() as int) =~= list.keys());
        MenuState { selected, last: None, installed: false }
    }

    /// Tick or untick the category at `tag`. The last ticked one stays
    /// ticked: there is always something to turn off.
    pub fn toggle(&mut self, list: &Blocklist, tag: usize)
        ensures
            tag >= list.keys().len() ==> final(self).selected@ == old(self).selected@,
            tag < list.keys().len() ==> {
                let name = list.keys()[tag as int];
                let old_sel = views(old(self).selected@);
                let new_sel = views(final(self).selected@);
                if old_sel.contains(name) {
                    if old_sel.len() > 1 {
                        exists|i: int|
                            0 <= i < old_sel.len() && old_sel[i] == name && new_sel == old_sel.remove(i)
                    } else {
                        new_sel == old_sel
                    }
                } else {
                    new_sel == old_sel.push(name)
                }
            },
            old(self).selected@.len() > 0 ==> final(self).selected@.len() > 0,
            final(self).last == old(self).last,
            final(self).installed == old(self).installed,
    {
        if tag >= list.len() {
            return;
        }
        let (name, _) = list.entry(tag);
        let mut i: usize = 0;
        let mut found = false;
        while !found && i < self.selected.len()
            invariant
                i <= self.selected@.len(),
                forall|j: int| 0 <= j < i ==> self.selected@[j]@ != name@,
                found ==> i < self.selected@.len() && self.selected@[i as int]@ == name@,
            decreases self.selected@.len() - i + if found { 0int } else { 1int },
        {
            if self.selected[i] == *name {
                found = true;
            } else {
                i = i + 1;
            }
        }
        let ghost old_sel = views(self.selected@);
        if found {
            assert(old_sel[i as int] == name@);
            if self.selected.len() > 1 {
                self.selected.remove(i);
                assert(views(self.selected@) =~= old_sel.remove(i as int));
            }
        } else {
            assert(!old_sel.contains(name@)) by {
                if old_sel.contains(name@) {
                    let j = choose|j: int| 0 <= j < old_sel.len() && old_sel[j] == name@;
                    assert(self.selected@[j]@ == name@);
                }
            }
            self.selected.push(name.clone());
            assert(views(self.selected@) =~= old_sel.push(name@));
        }
    }

    /// Take in the helper's answer: a state, "not installed", or a failure
    /// that leaves what was known.
    pub fn observe(&mut self, reply: Observed)
        ensures
            reply matches Observed::Answered(s) ==> final(self).installed && final(self).last == Some(s),
            reply is NotInstalled ==> !final(self).installed && final(self).last is None,
            reply is Failed ==> final(self).installed == old(self).installed && final(self).last
                == old(self).last,
            final(self).selected@ == old(self).selected@,
    {
        match reply {
            Observed::Answered(s) => {
                self.installed = true;
                self.last = Some(s);
            },
            Observed::NotInstalled => {
                self.installed = false;
                self.last = None;
            },
            Observed::Failed => {},
        }
    }

    /// The text beside the icon: the time left while a block is on.
    pub fn title(&self, now: u64) -> (r: String)
        ensures
            match shown_block(self.last, now) {
                Some(s) => r@ == " "@ + remaining_spec((s.until - now) as u64),
                None => r@.len() == 0,
            },
    {
        match &self.last {
            Some(s) => {
                if s.active_at(now) {
                    let mut t = String::from_str(" ");
                    t.append(remaining(s.remaining_at(now)).as_str());
                    t
                } else {
                    String::new()
                }
            },
            None => String::new(),
        }
    }

    /// The menu as it should look at `now`: set-up first; while a block is
    /// on, its end and the ways to make it longer; otherwise the presets
    /// and the categories to tick. Recovery and quit are always last.
    pub fn layout(&self, list: &Blocklist, now: u64) -> (r: Vec<Entry>)
        ensures
            r@.len() >= 2,
            is_action(r@[r@.len() - 2], "How recovery works…"@, MenuAction::Recovery),
            is_action(r@[r@.len() - 1], "Quit this menu (the block stays on)"@, MenuAction::Quit),
            !self.installed ==> r@.len() == 5 && is_label(r@[0], "Turn Them Off isn't set up yet"@)
                && is_action(r@[1], "Install helper… (asks for your password, once)"@, MenuAction::Install)
                && r@[2] is Separator,
            self.installed && shown_block(self.last, now) is Some ==> ({
                let s = shown_block(self.last, now)->0;
                &&& r@.len() == 13
                &&& r@[0] matches Entry::Label(t) && t@.len() >= 10 && t@.take(10) == "Off until "@
                    && describes(s.until, t@.skip(10))
                &&& is_label(
                    r@[1],
                    remaining_spec((s.until - now) as u64) + " to go · "@ + joined(s.cats(), ", "@),
                )
                &&& r@[2] is Separator
                &&& is_label(r@[3], "Make it longer"@)
                &&& forall|i: int| 0 <= i < 6 ==> is_action(#[trigger] r@[4 + i], preset_labels()[i], MenuAction::Preset(i as usize))
                &&& r@[10] is Separator
            }),
            self.installed && shown_block(self.last, now) is None ==> ({
                &&& r@.len() == 12
                &&& is_label(r@[0], "Turn them off…"@)
                &&& forall|i: int| 0 <= i < 6 ==> is_action(#[trigger] r@[1 + i], preset_labels()[i], MenuAction::Preset(i as usize))
                &&& r@[7] is Separator
                &&& r@[8] matches Entry::Submenu { title: t, items: cs } && t@ == "What to turn off"@
                    && cs@.len() == list.keys().len()
                    && forall|i: int| 0 <= i < cs@.len() ==> {
                        &&& (#[trigger] cs@[i]).title@ == list.cats()[i].title@
                        &&& cs@[i].tooltip@ == list.cats()[i].blurb@
                        &&& cs@[i].tag == i
                        &&& cs@[i].on == views(self.selected@).contains(list.keys()[i])
                    }
                &&& r@[9] is Separator
            }),
    {
        let mut r: Vec<Entry> = Vec::new();
        if !self.installed {
            r.push(Entry::Label(String::from_str("Turn Them Off isn't set up yet")));
            r.push(
                Entry::Action {
                    title: String::from_str("Install helper… (asks for your password, once)"),
                    action: MenuAction::Install,
                    key: String::new(),
                },
            );
        } else {
            let shown = match &self.last {
                Some(s) => s.active_at(now),
                None => false,
            };
            if shown {
                let s = self.last.as_ref().unwrap();
                let mut head = String::from_str("Off until ");
                proof {
                    reveal_strlit("Off until ");
                }
                let ghost lead = head@;
                let words = describe(s.until);
                head.append(words.as_str());
                assert(head@.take(10) =~= lead);
                assert(head@.skip(10) =~= words@);
                r.push(Entry::Label(head));
                let mut sub = remaining(s.remaining_at(now));
                sub.append(" to go · ");
                sub.append(join(&s.categories, ", ").as_str());
                r.push(Entry::Label(sub));
                r.push(Entry::Separator);
                r.push(Entry::Label(String::from_str("Make it longer")));
                add_presets(&mut r);
            } else {
                r.push(Entry::Label(String::from_str("Turn them off…")));
                add_presets(&mut r);
                r.push(Entry::Separator);
                let checks = self.checks(list);
                r.push(Entry::Submenu { title: String::from_str("What to turn off"), items: checks });
            }
        }
        r.push(Entry::Separator);
        r.push(
            Entry::Action {
                title: String::from_str("How recovery works…"),
                action: MenuAction::Recovery,
                key: String::new(),
            },
        );
        r.push(
            Entry::Action {
                title: String::from_str("Quit this menu (the block stays on)"),
                action: MenuAction::Quit,
                key: String::from_str("q"),
            },
        );
        r
    }

    /// One check per category, in name order, ticked when selected.
    fn checks(&self, list: &Blocklist) -> (cs: Vec<Check>)
        ensures
            cs@.len() == list.keys().len(),
            forall|i: int|
                0 <= i < cs@.len() ==> {
                    &&& (#[trigger] cs@[i]).title@ == list.cats()[i].title@
                    &&& cs@[i].tooltip@ == list.cats()[i].blurb@
                    &&& cs@[i].tag == i
                    &&& cs@[i].on == views(self.selected@).contains(list.keys()[i])
                },
    {
        let mut cs: Vec<Check> = Vec::new();
        let n = list.len();
        let mut i: usize = 0;
        while i < n
            invariant
                i <= list.keys().len(),
                n == list.keys().len(),
                list.keys().len() == list.cats().len(),
                cs@.len() == i,
                forall|j: int|
                    0 <= j < i ==> {
                        &&& (#[trigger] cs@[j]).title@ == list.cats()[j].title@
                        &&& cs@[j].tooltip@ == list.cats()[j].blurb@
                        &&& cs@[j].tag == j
                        &&& cs@[j].on == views(self.selected@).contains(list.keys()[j])
                    },
            decreases list.keys().len() - i,
        {
            let (name, cat) = list.entry(i);
            let on = crate::text::contains_string(&self.selected, name);
            cs.push(Check { title: cat.title.clone(), tooltip: cat.blurb.clone(), on, tag: i });
            i = i + 1;
        }
        cs
    }

    /// What the ticked categories come to, in words: "everything" when all
    /// are ticked, else their titles in lower case.
    pub fn what(&self, list: &Blocklist) -> (r: String)
        ensures
            self.selected@.len() == list.keys().len() ==> r@ == "everything"@,
            self.selected@.len() != list.keys().len() ==> r@ == joined(
                chosen_titles(*list, views(self.selected@)),
                ", "@,
            ),
    {
        if self.selected.len() == list.len() {
            return String::from_str("everything");
        }
        let mut titles: Vec<String> = Vec::new();
        let mut i: usize = 0;
        while i < self.selected.len()
            invariant
                i <= self.selected@.len(),
                views(titles@) == chosen_titles(*list, views(self.selected@).take(i as int)),
            decreases self.selected@.len() - i,
        {
            proof {
                assert(views(self.selected@).take(i + 1).drop_last() =~= views(self.selected@).take(i as int));
                assert(views(self.selected@).take(i + 1).last() == self.selected@[i as int]@);
            }
            match list.get(&self.selected[i]) {
                Some(c) => {
                    titles.push(lowercase(c.title.as_str()));
                    assert(views(titles@) =~= chosen_titles(*list, views(self.selected@).take(i as int)).push(
                        lower_case(list.cat_of(self.selected@[i as int]@).title@),
                    ));
                },
                None => {},
            }
            i = i + 1;
        }
        assert(views(self.selected@).take(self.selected@.len() as int) =~= views(self.selected@));
        join(&titles, ", ")
    }
}

/// The titles, in lower case, of the names in `sel` that are categories of
/// `list`, in the order of `sel`.
pub open spec fn chosen_titles(list: Blocklist, sel: Seq<Seq<char>>) -> Seq<Seq<char>>
    decreases sel.len(),
{
    if sel.len() == 0 {
        Seq::<Seq<char>>::empty()
    } else {
        let r = chosen_titles(list, sel.drop_last());
        if list.keys().contains(sel.last()) {
            r.push(lower_case(list.cat_of(sel.last()).title@))
        } else {
            r
        }
    }
}

/// The six presets, in order.
fn add_presets(r: &mut Vec<Entry>)
    ensures
        final(r)@.len() == old(r)@.len() + 6,
        forall|i: int| 0 <= i < old(r)@.len() ==> final(r)@[i] == old(r)@[i],
        forall|i: int|
            0 <= i < 6 ==> is_action(
                #[trigger] final(r)@[old(r)@.len() + i],
                preset_labels()[i],
                MenuAction::Preset(i as usize),
            ),
{
    let ps = presets();
    let mut i: usize = 0;
    while i < 6
        invariant
            i <= 6,
            ps@.len() == 6,
            forall|j: int| 0 <= j < 6 ==> (#[trigger] ps@[j]).0@ == preset_labels()[j],
            r@.len() == old(r)@.len() + i,
            forall|j: int| 0 <= j < old(r)@.len() ==> r@[j] == old(r)@[j],
            forall|j: int|
                0 <= j < i ==> is_action(
                    #[trigger] r@[old(r)@.len() + j],
                    preset_labels()[j],
                    MenuAction::Preset(j as usize),
                ),
        decreases 6 - i,
    {
        let (label, _) = ps[i];
        r.push(
            Entry::Action { title: String::from_str(label), action: MenuAction::Preset(i), key: String::new() },
        );
        i = i + 1;
    }
}

/// std's `str::to_lowercase`: Unicode lower case.
pub uninterp spec fn lower_case(s: Seq<char>) -> Seq<char>;

/// std's `str::to_lowercase`.
#[verifier::external_body]
fn lowercase(s: &str) -> (r: String)
    ensures
        r@ == lower_case(s@),
{
    s.to_lowercase()
}

/// The question asked before a preset: "Turn off everything for 1 hour?"
pub fn preset_question(what: &str, label: &str) -> (r: String)
    ensures
        r@ == "Turn off "@ + what@ + " "@ + lower_case(label@) + "?"@,
{
    let mut m = String::from_str("Turn off ");
    m.append(what);
    m.append(" ");
    m.append(lowercase(label).as_str());
    m.append("?");
    m
}

} // verus!
