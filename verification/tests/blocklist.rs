use tto::blocklist::{Blocklist, Category, Fault};

fn list_with(domains: &[&str], processes: &[&str]) -> Blocklist {
    let mut list = Blocklist::new(99);
    list.insert(
        "x".to_string(),
        Category {
            domains: domains.iter().map(|d| d.to_string()).collect(),
            processes: processes.iter().map(|p| p.to_string()).collect(),
            ..Default::default()
        },
    );
    list
}

/// A list in its published TOML form, read and checked.
fn parse(text: &str) -> Result<Blocklist, String> {
    let t: toml::Table = text.parse().map_err(|e: toml::de::Error| e.to_string())?;
    let version = t.get("version").and_then(|v| v.as_integer()).ok_or("no version")?;
    let mut list = Blocklist::new(version as u32);
    if let Some(cats) = t.get("categories").and_then(|v| v.as_table()) {
        for (name, c) in cats {
            let words = |k: &str| -> Vec<String> {
                c.get(k)
                    .and_then(|v| v.as_array())
                    .map(|a| a.iter().filter_map(|x| x.as_str().map(String::from)).collect())
                    .unwrap_or_default()
            };
            let text = |k: &str| c.get(k).and_then(|v| v.as_str()).unwrap_or("").to_string();
            list.insert(
                name.clone(),
                Category {
                    title: text("title"),
                    blurb: text("blurb"),
                    domains: words("domains"),
                    processes: words("processes"),
                    apps: words("apps"),
                },
            );
        }
    }
    list.validate()?;
    Ok(list)
}

#[test]
fn refuses_smuggled_lines() {
    for bad in [
        "a.com\nb.com",
        "a.com\tb.com",
        "a.com b.com",
        "A.com",
        "a.com/x",
        ".a.com",
        "a.com.",
    ] {
        let text = format!("version = 99\n[categories.x]\ndomains = [{bad:?}]\n");
        assert!(parse(&text).is_err(), "{bad:?} must be refused");
    }
}

#[test]
fn refuses_infrastructure_domains() {
    for bad in [
        "googleapis.com",
        "cursor.sh",
        "com",
        "github.com",
        "amazonaws.com",
    ] {
        let text = format!("version = 99\n[categories.x]\ndomains = [\"{bad}\"]\n");
        assert!(parse(&text).is_err(), "{bad} must be refused");
    }
    // Exact chatbot endpoints under those providers remain fine.
    let ok = "version = 99\n[categories.x]\ndomains = [\"generativelanguage.googleapis.com\", \"api2.cursor.sh\"]\n";
    assert!(parse(ok).is_ok());
}

#[test]
fn refuses_the_same_domains_built_by_hand() {
    for bad in ["a.com\nb.com", "a.com b.com", "A.com", "a.com/x", ".a.com", "a.com.", "com", "github.com"] {
        assert!(list_with(&[bad], &[]).validate().is_err(), "{bad:?} must be refused");
    }
    assert!(list_with(&["generativelanguage.googleapis.com", "api2.cursor.sh"], &[])
        .validate()
        .is_ok());
}

#[test]
fn refusal_messages_name_the_rule() {
    assert_eq!(
        list_with(&["A.com"], &[]).validate().unwrap_err(),
        "x: bad domain \"A.com\""
    );
    assert_eq!(
        list_with(&["google.com"], &[]).validate().unwrap_err(),
        "x: \"google.com\" would block google.com, which is infrastructure; blocklist refused"
    );
    assert_eq!(
        list_with(&["microsoft.com", "A.com"], &[]).validate().unwrap_err(),
        "x: \"microsoft.com\" would block microsoft.com, which is infrastructure; blocklist refused"
    );
    assert_eq!(
        list_with(&["perplexity.ai"], &["bin/codex"]).validate().unwrap_err(),
        "x: bad process \"bin/codex\""
    );
    let e = list_with(&["ok.ai"], &["a*"]).check().unwrap_err();
    assert_eq!(e.fault, Fault::BadProcess);
    assert_eq!(e.item, "a*");
    let e = list_with(&["live.com"], &[]).check().unwrap_err();
    assert_eq!(e.fault, Fault::Infrastructure);
    assert_eq!(e.blocks, "live.com");
}

#[test]
fn processes_refuse_paths_wildcards_and_controls() {
    for bad in ["", "a/b", "*", "a\u{7}", "a\u{85}"] {
        assert!(list_with(&[], &[bad]).validate().is_err(), "{bad:?}");
    }
    assert!(list_with(&[], &["Codex Helper", "ChatGPT.app"]).validate().is_ok());
}

fn three() -> Blocklist {
    let mut list = Blocklist::new(3);
    list.insert(
        "local".into(),
        Category { processes: vec!["ollama".into()], ..Default::default() },
    );
    list.insert(
        "chat".into(),
        Category {
            title: "Chat".into(),
            domains: vec!["perplexity.ai".into(), "chatgpt.com".into()],
            apps: vec!["ChatGPT.app".into()],
            ..Default::default()
        },
    );
    list.insert(
        "coding".into(),
        Category {
            domains: vec!["api2.cursor.sh".into(), "perplexity.ai".into()],
            processes: vec!["codex".into()],
            ..Default::default()
        },
    );
    list
}

#[test]
fn names_are_in_order() {
    assert_eq!(three().names(), vec!["chat", "coding", "local"]);
}

#[test]
fn everything_selects_all_of_a_list() {
    let list = three();
    let all = list.select(&["everything".into()]);
    let chat = list.select(&["chat".into()]);
    assert!(all.domains.len() > chat.domains.len());
    assert!(all.processes.contains(&"ollama".to_string()));
    assert_eq!(all.domains, vec!["api2.cursor.sh", "chatgpt.com", "perplexity.ai"]);
    assert_eq!(chat.domains, vec!["chatgpt.com", "perplexity.ai"]);
    assert_eq!(chat.apps, vec!["ChatGPT.app"]);
    assert!(chat.processes.is_empty());
    assert_eq!(chat.title, "");
}

#[test]
fn unknown_names_are_ignored() {
    let list = three();
    let none = list.select(&["nope".into()]);
    assert!(none.domains.is_empty() && none.processes.is_empty() && none.apps.is_empty());
}

#[test]
fn insert_replaces_and_get_finds() {
    let mut list = three();
    assert_eq!(list.len(), 3);
    list.insert("chat".into(), Category { title: "Chats".into(), ..Default::default() });
    assert_eq!(list.len(), 3);
    assert_eq!(list.get(&"chat".to_string()).unwrap().title, "Chats");
    assert!(list.get(&"video".to_string()).is_none());
    assert!(list.contains(&"local".to_string()));
}

#[test]
fn versions_never_roll_back() {
    let mut list = three();
    assert!(!list.adopt_if_newer(Blocklist::new(2)));
    assert_eq!(list.version(), 3);
    assert!(!list.adopt_if_newer(Blocklist::new(3)));
    assert_eq!(list.len(), 3);
    assert!(list.adopt_if_newer(Blocklist::new(4)));
    assert_eq!(list.version(), 4);
    assert_eq!(list.len(), 0);
}

#[test]
fn names_come_in_ascending_order() {
    let mut list = Blocklist::new(1);
    for n in ["local", "chat", "coding"] {
        list.insert(n.to_string(), Category::default());
    }
    assert_eq!(list.names(), vec!["chat", "coding", "local"]);
}

#[test]
fn everything_is_every_name() {
    let mut list = Blocklist::new(1);
    list.insert("b".into(), Category { domains: vec!["y.ai".into(), "x.ai".into()], processes: vec!["p".into()], ..Default::default() });
    list.insert("a".into(), Category { domains: vec!["x.ai".into(), "w.ai".into()], apps: vec!["A.app".into()], ..Default::default() });
    let all = list.select(&["everything".into()]);
    let named = list.select(&["a".into(), "b".into()]);
    assert_eq!(all.domains, named.domains);
    assert_eq!(all.processes, named.processes);
    assert_eq!(all.apps, named.apps);
    assert_eq!(all.domains, vec!["w.ai".to_string(), "x.ai".to_string(), "y.ai".to_string()]);
    let fewer = list.select(&["a".into()]);
    assert!(fewer.domains.iter().all(|d| all.domains.contains(d)));
}
