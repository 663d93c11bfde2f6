use tto::hosts::{render, BEGIN, DEFUSE, END};

#[test]
fn round_trips_and_leaves_rest_alone() {
    let base = "127.0.0.1 localhost\n255.255.255.255 broadcasthost\n::1 localhost\n";
    let blocked = render(base, &["perplexity.ai".into(), "api.openai.com".into()]);
    assert!(blocked.starts_with(base));
    assert!(blocked.contains("0.0.0.0 perplexity.ai\n"));
    assert!(blocked.contains(":: www.perplexity.ai\n"));
    assert!(!blocked.contains("www.api.openai.com"));
    // Re-rendering with the same list is a no-op.
    assert_eq!(
        render(&blocked, &["perplexity.ai".into(), "api.openai.com".into()]),
        blocked
    );
    // Removing the section gives back the file as it was, exactly.
    assert_eq!(render(&blocked, &[]), base);
}

#[test]
fn unmatched_begin_loses_nothing() {
    let base = format!("127.0.0.1 localhost\n{BEGIN}\n0.0.0.0 x.com\n10.0.0.1 nas.local\n");
    let out = render(&base, &[]);
    assert!(out.contains("10.0.0.1 nas.local"), "{out}");
    assert!(
        out.contains("0.0.0.0 x.com"),
        "we cannot tell what was ours; keep it"
    );
    assert!(
        !out.lines().any(|l| l == BEGIN),
        "stray marker must be defused"
    );
    // And blocking on top of it, then releasing, still loses nothing.
    let blocked = render(&base, &["perplexity.ai".into()]);
    assert_eq!(
        blocked.lines().filter(|l| *l == BEGIN).count(),
        1,
        "{blocked}"
    );
    let released = render(&blocked, &[]);
    assert!(released.contains("10.0.0.1 nas.local"), "{released}");
    assert!(!released.contains("perplexity.ai"));
}

#[test]
fn replaces_stale_section() {
    let base = "127.0.0.1 localhost\n";
    let old = render(base, &["chatgpt.com".into()]);
    let new = render(&old, &["perplexity.ai".into()]);
    assert!(!new.contains("chatgpt.com"));
    assert!(new.contains("perplexity.ai"));
    assert_eq!(new.matches(BEGIN).count(), 1);
}

#[test]
fn exact_section_layout() {
    let out = render("127.0.0.1 localhost\n", &["perplexity.ai".into(), "api.openai.com".into()]);
    let want = format!(
        "127.0.0.1 localhost\n\n{BEGIN}\n0.0.0.0 perplexity.ai\n:: perplexity.ai\n0.0.0.0 www.perplexity.ai\n:: www.perplexity.ai\n0.0.0.0 api.openai.com\n:: api.openai.com\n{END}\n"
    );
    assert_eq!(out, want);
}

#[test]
fn www_names_get_no_second_www() {
    let out = render("", &["www.example.ai".into()]);
    assert!(out.contains("0.0.0.0 www.example.ai\n"));
    assert!(!out.contains("www.www."));
}

#[test]
fn empty_list_on_clean_file_changes_nothing() {
    let base = "127.0.0.1 localhost\n::1 localhost\n";
    assert_eq!(render(base, &[]), base);
}

#[test]
fn trailing_blank_lines_are_trimmed() {
    assert_eq!(render("a\n\n\n\n", &[]), "a\n");
    assert_eq!(render("\n\n", &[]), "\n");
}

#[test]
fn crlf_lines_are_read_as_lines() {
    assert_eq!(render("a\r\nb\r\n", &[]), "a\nb\n");
}

#[test]
fn stray_marker_is_prefixed() {
    let base = format!("{BEGIN}\nkept\n");
    let out = render(&base, &[]);
    assert_eq!(out, format!("{DEFUSE}{BEGIN}\nkept\n"));
}

#[test]
fn release_law_holds_on_a_fenced_file() {
    // Replacing a section with another, then releasing, gives the file back.
    let base = "10.0.0.1 nas.local\n";
    let a = render(base, &["chatgpt.com".into()]);
    let b = render(&a, &["perplexity.ai".into(), "api.x.ai".into()]);
    assert_eq!(b, render(base, &["perplexity.ai".into(), "api.x.ai".into()]));
    assert_eq!(render(&b, &[]), render(base, &[]));
}

#[test]
fn an_untouched_file_comes_back_exactly() {
    let base = "127.0.0.1 localhost\n::1 localhost\n# a comment\n10.0.0.2 printer\n";
    let blocked = render(base, &["chatgpt.com".to_string(), "perplexity.ai".to_string()]);
    assert_ne!(blocked, base);
    assert_eq!(render(&blocked, &[]), base);
    assert_eq!(render(base, &[]), base);
}

#[test]
fn trailing_blank_lines_are_not_kept() {
    let base = "127.0.0.1 localhost\n\n\n";
    let blocked = render(base, &["chatgpt.com".to_string()]);
    assert_eq!(render(&blocked, &[]), "127.0.0.1 localhost\n");
}

#[test]
fn a_file_in_released_form_comes_back_exactly() {
    for base in ["127.0.0.1 localhost\n", "# only a comment\n::1 localhost\n10.0.0.9 nas\n"] {
        assert_eq!(render(base, &[]), base);
        let blocked = render(base, &["api.openai.com".to_string(), "perplexity.ai".to_string()]);
        assert_eq!(render(&blocked, &[]), base);
    }
    // A file with CRLF line ends is not in released form: releasing rewrites it.
    assert_eq!(render("127.0.0.1 localhost\r\n", &[]), "127.0.0.1 localhost\n");
}
