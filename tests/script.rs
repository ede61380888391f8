use recital::config::{add_config, read_config, split_words, ConfigError, PlayConfig};
use recital::diagnostics::Anomaly;
use recital::script_gen::{
    add_script_line, compare_text, process_config, recite_script, script_gen, sort_script,
    ScriptLine,
};

fn s(x: &str) -> String {
    x.to_string()
}

#[test]
fn global_sort_orders_by_position_name_text() {
    let mut play: Vec<ScriptLine> = vec![
        (2, s("Bob"), s("b2")),
        (1, s("Zed"), s("z1")),
        (1, s("Amy"), s("y")),
        (1, s("Amy"), s("x")),
    ];
    sort_script(&mut play);
    assert_eq!(
        play,
        vec![
            (1, s("Amy"), s("x")),
            (1, s("Amy"), s("y")),
            (1, s("Zed"), s("z1")),
            (2, s("Bob"), s("b2")),
        ]
    );
}

#[test]
fn global_sort_end_to_end() {
    let parts = vec![
        (s("Alice"), vec![s("0 Hi"), s("2 Bye"), s("bad x")]),
        (s("Bob"), vec![s("1 Hello")]),
    ];
    let mut title = String::new();
    let mut play: Vec<ScriptLine> = Vec::new();
    let warnings = script_gen(&s("A Short Play"), &parts, &mut title, &mut play, true);
    assert_eq!(warnings, vec![Anomaly::BadLineNumber(s("bad"))]);
    assert_eq!(title, s("A Short Play"));
    sort_script(&mut play);
    let lines = recite_script(&title, &play);
    let expected: Vec<String> = vec![
        "A Short Play", "", "Alice.", "Hi", "", "Bob.", "Hello", "", "Alice.", "Bye",
    ]
    .into_iter()
    .map(s)
    .collect();
    assert_eq!(lines, expected);
}

#[test]
fn process_config_keeps_part_order_and_is_quiet_without_diagnostics() {
    let parts = vec![(s("A"), vec![s("1 a"), s("? q")]), (s("B"), vec![s("0 b")])];
    let mut play: Vec<ScriptLine> = Vec::new();
    let warnings = process_config(&mut play, &parts, false);
    assert!(warnings.is_empty());
    assert_eq!(play, vec![(1, s("A"), s("a")), (0, s("B"), s("b"))]);
}

#[test]
fn single_script_line() {
    let mut play: Vec<ScriptLine> = Vec::new();
    assert_eq!(add_script_line(&mut play, &s("9 nine "), &s("N")), None);
    assert_eq!(add_script_line(&mut play, &s("n9 x"), &s("N")), Some(s("n9")));
    assert_eq!(play, vec![(9, s("N"), s("nine"))]);
}

#[test]
fn text_comparison_by_character() {
    assert_eq!(compare_text(&s("abc"), &s("abd")), -1);
    assert_eq!(compare_text(&s("ab"), &s("a")), 1);
    assert_eq!(compare_text(&s("same"), &s("same")), 0);
    assert_eq!(compare_text(&s(""), &s("x")), -1);
}

#[test]
fn words_split_on_white_space() {
    assert_eq!(split_words(&s("  Alice \t alice.txt  ")), vec![s("Alice"), s("alice.txt")]);
    assert!(split_words(&s("   ")).is_empty());
}

#[test]
fn config_lines_with_wrong_word_counts() {
    let mut config: PlayConfig = Vec::new();
    assert_eq!(add_config(&s("Alice a.txt"), &mut config, true), None);
    assert_eq!(add_config(&s("Bob"), &mut config, true), Some(Anomaly::BadConfigLine(s("Bob"), 1)));
    assert_eq!(
        add_config(&s("Cy c.txt extra"), &mut config, true),
        Some(Anomaly::BadConfigLine(s("Cy c.txt extra"), 3))
    );
    assert_eq!(add_config(&s("Dee"), &mut config, false), None);
    assert_eq!(config, vec![(s("Alice"), s("a.txt")), (s("Cy"), s("c.txt"))]);
}

#[test]
fn config_needs_title_and_one_more_line() {
    let mut title = s("old");
    let mut config: PlayConfig = Vec::new();
    let r = read_config(&vec![s("Only a title")], &mut title, &mut config, true);
    assert_eq!(r, Err(ConfigError::TooFewLines));
    assert_eq!(title, s("old"));
    let r = read_config(&vec![s("Hamlet"), s("Ham h.txt"), s("x")], &mut title, &mut config, true);
    assert_eq!(r, Ok(vec![Anomaly::BadConfigLine(s("x"), 1)]));
    assert_eq!(title, s("Hamlet"));
    assert_eq!(config, vec![(s("Ham"), s("h.txt"))]);
}
