use tto::blocklist::{Blocklist, Category};
use tto::cli::{join, selection_text, verdict};
use tto::menu::{preset_question, presets, Entry, MenuAction, MenuState, Observed};
use tto::state::State;

fn list() -> Blocklist {
    let mut l = Blocklist::new(1);
    l.insert("chat".into(), Category { title: "Chat apps and websites".into(), blurb: "b1".into(), ..Default::default() });
    l.insert("local".into(), Category { title: "AI on my Mac".into(), ..Default::default() });
    l
}

#[test]
fn selection_never_empties() {
    let l = list();
    let mut m = MenuState::new(&l);
    assert_eq!(m.selected, vec!["chat".to_string(), "local".to_string()]);
    m.toggle(&l, 0);
    assert_eq!(m.selected, vec!["local".to_string()]);
    m.toggle(&l, 1);
    assert_eq!(m.selected, vec!["local".to_string()], "the last one stays ticked");
    m.toggle(&l, 0);
    assert_eq!(m.selected, vec!["local".to_string(), "chat".to_string()]);
    m.toggle(&l, 9);
    assert_eq!(m.selected.len(), 2);
}

#[test]
fn observing_the_helper() {
    let l = list();
    let mut m = MenuState::new(&l);
    m.observe(Observed::Answered(State { until: 50, categories: vec![], since: 1 }));
    assert!(m.installed);
    m.observe(Observed::Failed);
    assert!(m.installed && m.last.is_some());
    m.observe(Observed::NotInstalled);
    assert!(!m.installed && m.last.is_none());
}

#[test]
fn layouts() {
    let l = list();
    let mut m = MenuState::new(&l);
    let r = m.layout(&l, 10);
    assert_eq!(r.len(), 5);
    assert!(matches!(&r[1], Entry::Action { action: MenuAction::Install, .. }));
    m.observe(Observed::Answered(State::default()));
    let r = m.layout(&l, 10);
    assert_eq!(r.len(), 12);
    match &r[8] {
        Entry::Submenu { title, items } => {
            assert_eq!(title, "What to turn off");
            assert_eq!(items.len(), 2);
            assert_eq!(items[0].title, "Chat apps and websites");
            assert_eq!(items[0].tooltip, "b1");
            assert!(items[1].on);
        }
        other => panic!("{other:?}"),
    }
    m.observe(Observed::Answered(State { until: 7210, categories: vec!["chat".into(), "local".into()], since: 1 }));
    let r = m.layout(&l, 10);
    assert_eq!(r.len(), 13);
    match &r[1] {
        Entry::Label(t) => assert_eq!(t, "2h to go · chat, local"),
        other => panic!("{other:?}"),
    }
    assert!(matches!(&r[4], Entry::Action { action: MenuAction::Preset(0), .. }));
    assert!(matches!(&r[12], Entry::Action { action: MenuAction::Quit, .. }));
    assert_eq!(m.title(10), " 2h");
    assert_eq!(m.title(7210), "");
}

#[test]
fn what_and_questions() {
    let l = list();
    let mut m = MenuState::new(&l);
    assert_eq!(m.what(&l), "everything");
    m.toggle(&l, 1);
    assert_eq!(m.what(&l), "chat apps and websites");
    assert_eq!(preset_question("everything", "For 1 hour"), "Turn off everything for 1 hour?");
    assert_eq!(presets()[3], ("Tonight, until 7am", "tonight"));
}

#[test]
fn selection_words() {
    assert_eq!(selection_text(&["chat".into(), "everything".into()]), "everything");
    assert_eq!(selection_text(&["chat".into(), "local".into()]), "chat, local");
    assert_eq!(join(&[], ", "), "");
}

#[test]
fn doctor_verdicts() {
    assert_eq!(verdict(0), Ok(()));
    assert_eq!(verdict(1), Err("1 problem(s)".to_string()));
    assert_eq!(verdict(12), Err("12 problem(s)".to_string()));
}
