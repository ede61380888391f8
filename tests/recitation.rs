use recital::diagnostics::Anomaly;
use recital::play::{PartLines, Play};

fn s(x: &str) -> String {
    x.to_string()
}

fn part(name: &str, lines: &[&str]) -> (String, Vec<String>) {
    (s(name), lines.iter().map(|l| s(l)).collect())
}

fn play_of(title: &str, parts: PartLines, diagnostics: bool) -> (Play, Vec<Anomaly>) {
    let mut play = Play::new();
    let warnings = play.prepare(&s(title), &parts, diagnostics);
    (play, warnings)
}

fn recite(title: &str, parts: PartLines, diagnostics: bool) -> (Vec<String>, Vec<Anomaly>) {
    let (mut play, _) = play_of(title, parts, false);
    let r = play.recite(diagnostics);
    (r.lines, r.warnings)
}

#[test]
fn end_to_end_short_play() {
    let parts = vec![part("Alice", &["0 Hi", "2 Bye"]), part("Bob", &["1 Hello"])];
    let (lines, _) = recite("A Short Play", parts, false);
    let expected: Vec<String> = vec![
        "A Short Play", "", "Alice.", "Hi", "", "Bob.", "Hello", "", "Alice.", "Bye",
    ]
    .into_iter()
    .map(s)
    .collect();
    assert_eq!(lines, expected);
}

#[test]
fn silent_tick_warned_only_with_diagnostics() {
    let parts = || vec![part("Alice", &["0 One", "2 Two"])];
    let (with, warnings_on) = recite("T", parts(), true);
    let (without, warnings_off) = recite("T", parts(), false);
    assert_eq!(warnings_on, vec![Anomaly::SilentTick(1)]);
    assert!(warnings_off.is_empty());
    assert_eq!(with, without);
    assert_eq!(with, vec![s("T"), s(""), s("Alice."), s("One"), s("Two")]);
}

#[test]
fn overlapping_speakers_keep_configuration_order() {
    let parts = vec![part("Bob", &["3 From Bob"]), part("Alice", &["3 From Alice"])];
    let (lines, warnings) = recite("T", parts, true);
    assert_eq!(
        lines,
        vec![s("T"), s(""), s("Bob."), s("From Bob"), s(""), s("Alice."), s("From Alice")]
    );
    assert_eq!(
        warnings,
        vec![
            Anomaly::SilentTick(0),
            Anomaly::SilentTick(1),
            Anomaly::SilentTick(2),
            Anomaly::OverlappingSpeakers(3, vec![s("Bob"), s("Alice")]),
        ]
    );
}

#[test]
fn same_name_twice_counts_as_one_speaker() {
    let parts = vec![part("Bob", &["0 a"]), part("Bob", &["0 b"])];
    let (lines, warnings) = recite("T", parts, true);
    assert_eq!(lines, vec![s("T"), s(""), s("Bob."), s("a"), s("b")]);
    assert!(warnings.is_empty());
}

#[test]
fn duplicate_lines_per_speaker() {
    let parts = vec![part("Carol", &["5 first", "5 second"])];
    let (lines, warnings) = recite("T", parts, true);
    assert_eq!(lines, vec![s("T"), s(""), s("Carol."), s("first"), s("second")]);
    assert_eq!(warnings.len(), 6);
    assert_eq!(warnings[5], Anomaly::DuplicateLines(5, s("Carol"), 2));
    for t in 0..5 {
        assert_eq!(warnings[t], Anomaly::SilentTick(t));
    }
}

#[test]
fn malformed_line_dropped_and_reported_with_diagnostics() {
    let parts = || vec![part("Dan", &["not_a_number hello", "0 fine"])];
    let (_, on) = play_of("T", parts(), true);
    let (_, off) = play_of("T", parts(), false);
    assert_eq!(on, vec![Anomaly::BadLineNumber(s("not_a_number"))]);
    assert!(off.is_empty());
    let (lines_on, _) = recite("T", parts(), true);
    let (lines_off, _) = recite("T", parts(), false);
    assert_eq!(lines_on, lines_off);
    assert_eq!(lines_on, vec![s("T"), s(""), s("Dan."), s("fine")]);
}

#[test]
fn recitation_is_repeatable_on_fresh_plays() {
    let parts = || {
        vec![
            part("Alice", &["4 d", "0 a", "2 c"]),
            part("Bob", &["1 b", "4 e"]),
        ]
    };
    let first = recite("Again", parts(), true);
    let second = recite("Again", parts(), true);
    assert_eq!(first, second);
}

#[test]
fn lines_sorted_stably_by_position() {
    let parts = vec![part("Eve", &["2 later", "1 early", "2 last"])];
    let (lines, _) = recite("T", parts, false);
    assert_eq!(lines, vec![s("T"), s(""), s("Eve."), s("early"), s("later"), s("last")]);
}

#[test]
fn empty_play_recites_only_title() {
    let (lines, warnings) = recite("Nothing", vec![], true);
    assert_eq!(lines, vec![s("Nothing")]);
    assert!(warnings.is_empty());
}

#[test]
fn character_without_lines_gives_one_silent_tick() {
    let (lines, warnings) = recite("T", vec![part("Mute", &[])], true);
    assert_eq!(lines, vec![s("T")]);
    assert_eq!(warnings, vec![Anomaly::SilentTick(0)]);
}

#[test]
fn recite_exhausts_tracks() {
    let (mut play, _) = play_of("T", vec![part("A", &["0 x"])], false);
    let r = play.recite(false);
    assert_eq!(r.lines.len(), 4);
}
