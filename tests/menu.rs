use tagmenu::menu::{
    build_stream, resolve_selection, resolve_separator, Config, Entry, Menu, MenuError,
    SeparatorSetting,
};
use tagmenu::tag::TagCodec;

fn entry(name: &str, run: &str) -> Entry {
    Entry { name: name.to_string(), run: run.to_string() }
}

fn menu(entries: Vec<Entry>, numbered: bool, ad_hoc: bool, separator: Option<SeparatorSetting>) -> Menu {
    Menu {
        entries,
        config: Config { numbered, ad_hoc, separator, shell: None, dmenu_args: Vec::new() },
    }
}

fn edit_build(ad_hoc: bool) -> Menu {
    menu(
        vec![entry("edit", "vim"), entry("build", "make")],
        true,
        ad_hoc,
        Some(SeparatorSetting::Custom(": ".to_string())),
    )
}

fn invalid_choice(r: Result<Vec<String>, MenuError>) -> String {
    match r {
        Err(MenuError::InvalidChoice(s)) => s,
        other => panic!("expected an invalid choice, got {:?}", other),
    }
}

#[test]
fn scenario_decimal_stream_and_selection() {
    let m = edit_build(false);
    assert_eq!(m.construct_entries().unwrap(), "0: edit\n1: build\n");
    assert_eq!(m.resolve_choices("1: build").unwrap(), vec!["make"]);
    assert_eq!(invalid_choice(m.resolve_choices("whatever")), "whatever");
    let m = edit_build(true);
    assert_eq!(m.resolve_choices("whatever").unwrap(), vec!["whatever"]);
}

#[test]
fn scenario_ternary_four_entries() {
    let m = menu(
        vec![entry("a", "ra"), entry("b", "rb"), entry("c", "rc"), entry("d", "rd")],
        false,
        false,
        None,
    );
    assert_eq!(m.construct_entries().unwrap(), "jj a\njk b\njl c\nkj d\n");
    assert_eq!(m.resolve_choices("kj d\njk b").unwrap(), vec!["rd", "rb"]);
}

#[test]
fn stream_keeps_entry_order_for_identical_entries() {
    let entries = vec![entry("same", "x"), entry("same", "x"), entry("same", "x")];
    let m = menu(entries, true, false, None);
    let stream = m.construct_entries().unwrap();
    let lines: Vec<&str> = stream.lines().collect();
    assert_eq!(lines, vec!["0 same", "1 same", "2 same"]);
}

#[test]
fn stream_keeps_blank_names() {
    let m = menu(vec![entry("", "a"), entry("  ", "b")], true, false, Some(SeparatorSetting::Disabled));
    assert_eq!(m.construct_entries().unwrap(), "0\n1  \n");
}

#[test]
fn stream_of_no_entries_is_empty() {
    let m = menu(Vec::new(), false, false, None);
    assert_eq!(m.construct_entries().unwrap(), "");
}

#[test]
fn ad_hoc_gating() {
    let m = edit_build(false);
    assert_eq!(invalid_choice(m.resolve_choices("  ls -la  \n")), "ls -la");
    let m = edit_build(true);
    assert_eq!(m.resolve_choices("  ls -la  \n").unwrap(), vec!["ls -la"]);
}

#[test]
fn separator_precedence() {
    let custom = Some(SeparatorSetting::Custom("-".to_string()));
    assert_eq!(resolve_separator(Some(" "), &custom), Some("-".to_string()));
    assert_eq!(resolve_separator(Some(" "), &None), Some(" ".to_string()));
    assert_eq!(resolve_separator(Some(" "), &Some(SeparatorSetting::Disabled)), None);
    assert_eq!(resolve_separator(None, &custom), Some("-".to_string()));
    assert_eq!(resolve_separator(None, &None), None);
}

#[test]
fn separator_setting_parses_none() {
    assert!(matches!(SeparatorSetting::parse("none"), SeparatorSetting::Disabled));
    match SeparatorSetting::parse("nonE") {
        SeparatorSetting::Custom(s) => assert_eq!(s, "nonE"),
        SeparatorSetting::Disabled => panic!("a custom separator was expected"),
    }
    match SeparatorSetting::parse(" | ") {
        SeparatorSetting::Custom(s) => assert_eq!(s, " | "),
        SeparatorSetting::Disabled => panic!("a custom separator was expected"),
    }
}

#[test]
fn menu_separator_follows_the_setting() {
    let codec = TagCodec::new(true, 2).unwrap();
    let m = menu(vec![entry("a", "b")], true, false, Some(SeparatorSetting::Custom("-".to_string())));
    assert_eq!(m.separator(&codec), Some("-".to_string()));
    assert_eq!(m.construct_entries().unwrap(), "0-a\n");
    let m = menu(vec![entry("a", "b")], true, false, None);
    assert_eq!(m.separator(&codec), Some(" ".to_string()));
    let m = menu(vec![entry("a", "b")], true, false, Some(SeparatorSetting::Disabled));
    assert_eq!(m.separator(&codec), None);
    assert_eq!(m.construct_entries().unwrap(), "0a\n");
}

#[test]
fn build_stream_writes_tag_separator_name() {
    let codec = TagCodec::new(false, 2).unwrap();
    let entries = vec![entry("one", "1"), entry("two", "2")];
    assert_eq!(build_stream(&entries, &codec, &Some(" > ".to_string())), "j > one\nk > two\n");
    assert_eq!(build_stream(&entries, &codec, &None), "jone\nktwo\n");
}

#[test]
fn blank_lines_are_dropped() {
    let m = edit_build(false);
    assert_eq!(m.resolve_choices("").unwrap(), Vec::<String>::new());
    assert_eq!(m.resolve_choices("\n  \n\t\n").unwrap(), Vec::<String>::new());
    assert_eq!(m.resolve_choices("\n 0: edit \n\n1\n").unwrap(), vec!["vim", "make"]);
}

#[test]
fn several_choices_resolve_in_order() {
    let m = edit_build(true);
    assert_eq!(
        m.resolve_choices("1: build\nls\r\n0: edited label\n1").unwrap(),
        vec!["make", "ls", "vim", "make"]
    );
}

#[test]
fn one_bad_line_fails_the_batch() {
    let m = edit_build(false);
    assert_eq!(invalid_choice(m.resolve_choices("0: edit\nbogus\n1: build\nworse")), "bogus");
}

#[test]
fn out_of_range_tag_is_no_tag() {
    let m = edit_build(false);
    assert_eq!(invalid_choice(m.resolve_choices("2: nothing")), "2: nothing");
    let m = edit_build(true);
    assert_eq!(m.resolve_choices("2: nothing").unwrap(), vec!["2: nothing"]);
}

#[test]
fn resolve_selection_with_a_codec() {
    let codec = TagCodec::new(false, 2).unwrap();
    let entries = vec![entry("one", "run one"), entry("two", "run two")];
    assert_eq!(resolve_selection("k two", &codec, &entries, false).unwrap(), vec!["run two"]);
    assert_eq!(resolve_selection("jx", &codec, &entries, false).unwrap(), vec!["run one"]);
    assert_eq!(resolve_selection("kk", &codec, &entries, false).unwrap(), vec!["run two"]);
    assert!(resolve_selection("lk", &codec, &entries, false).is_err());
}

#[test]
fn whitespace_is_unicode_whitespace() {
    let m = edit_build(true);
    assert_eq!(m.resolve_choices("\u{3000}ls\u{a0}").unwrap(), vec!["ls"]);
}

#[test]
fn shell_defaults_to_sh() {
    let mut m = edit_build(false);
    assert_eq!(m.shell(), "sh");
    m.config.shell = Some("bash".to_string());
    assert_eq!(m.shell(), "bash");
}

#[test]
fn every_emitted_line_resolves_to_its_entry() {
    for numbered in [true, false] {
        for separator in [None, Some(SeparatorSetting::Disabled), Some(SeparatorSetting::Custom(" | ".to_string()))] {
            let entries: Vec<Entry> =
                (0..12).map(|i| entry(&format!("jk entry {}", i), &format!("run {}", i))).collect();
            let m = menu(entries, numbered, false, separator);
            let stream = m.construct_entries().unwrap();
            for (i, line) in stream.lines().enumerate() {
                assert_eq!(m.resolve_choices(line).unwrap(), vec![format!("run {}", i)]);
            }
        }
    }
}
