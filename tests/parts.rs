use recital::diagnostics::Anomaly;
use recital::player::Player;
use recital::text::{parse_line, parse_position, ParsedLine};

fn s(x: &str) -> String {
    x.to_string()
}

#[test]
fn numbered_line_is_split_and_trimmed() {
    assert_eq!(parse_line("12   Good  morning \t"), ParsedLine::Numbered(12, s("Good  morning")));
    assert_eq!(parse_line("+7 plus"), ParsedLine::Numbered(7, s("plus")));
    assert_eq!(parse_line("3\u{3000}wide"), ParsedLine::Numbered(3, s("wide")));
    assert_eq!(parse_line("4 "), ParsedLine::Numbered(4, s("")));
}

#[test]
fn line_without_separator_is_ignored() {
    assert_eq!(parse_line(""), ParsedLine::Ignored);
    assert_eq!(parse_line("42"), ParsedLine::Ignored);
}

#[test]
fn bad_position_tokens_are_malformed() {
    assert_eq!(parse_line("x1 no"), ParsedLine::Malformed(s("x1")));
    assert_eq!(parse_line("-1 no"), ParsedLine::Malformed(s("-1")));
    assert_eq!(parse_line("+ no"), ParsedLine::Malformed(s("+")));
    assert_eq!(parse_line(" leading"), ParsedLine::Malformed(s("")));
    assert_eq!(
        parse_line("18446744073709551616 big"),
        ParsedLine::Malformed(s("18446744073709551616"))
    );
}

#[test]
fn position_parsing_matches_std() {
    for tok in ["0", "007", "+12", "18446744073709551615", "18446744073709551616", "", "+", "1a"] {
        let cs: Vec<char> = tok.chars().collect();
        assert_eq!(parse_position(&cs), tok.parse::<usize>().ok());
    }
}

#[test]
fn cursor_reads_only_lines_at_the_tick() {
    let mut p = Player::new(&s("Ann"));
    let warnings = p.prepare(&vec![s("3 c"), s("1 a"), s("oops b"), s("1 b")], true);
    assert_eq!(warnings, vec![Anomaly::BadLineNumber(s("oops"))]);
    assert_eq!(p.next_line(), Some(1));
    assert_eq!(p.advance_if_at(0), None);
    assert_eq!(p.advance_if_at(1), Some(s("a")));
    assert_eq!(p.advance_if_at(1), Some(s("b")));
    assert_eq!(p.advance_if_at(1), None);
    assert_eq!(p.next_line(), Some(3));
    assert_eq!(p.advance_if_at(3), Some(s("c")));
    assert_eq!(p.next_line(), None);
    assert_eq!(p.advance_if_at(3), None);
}

#[test]
fn with_lines_sorts_stably() {
    let lines = vec![(2, s("x")), (0, s("y")), (2, s("z")), (1, s("w"))];
    let mut p = Player::with_lines(&s("Q"), &lines);
    assert_eq!(p.name_str(), &s("Q"));
    assert_eq!(p.advance_if_at(0), Some(s("y")));
    assert_eq!(p.advance_if_at(1), Some(s("w")));
    assert_eq!(p.advance_if_at(2), Some(s("x")));
    assert_eq!(p.advance_if_at(2), Some(s("z")));
}
