use kodachi::formatters::{Formatter, FormatterSpec};
use kodachi::notifications::{MatchContext, MatchedText};
use kodachi::processing::ansi::Ansi;

fn text(s: &str) -> MatchedText {
    MatchedText::from(Ansi::from_str(s))
}

#[test]
fn format_indexed_test() {
    let formatter: Formatter = FormatterSpec::Simple("activate $1".to_string())
        .try_into()
        .unwrap();
    let formatted = formatter.format(MatchContext {
        named: Default::default(),
        indexed: vec![(1, text("Grayskull"))],
        full_match_range: 0..1,
    });
    assert_eq!(formatted, "activate Grayskull");
}

#[test]
fn format_non_vars() {
    let formatter: Formatter = FormatterSpec::Simple("give $$3.50".to_string())
        .try_into()
        .unwrap();
    let formatted = formatter.format(MatchContext {
        named: Default::default(),
        indexed: Default::default(),
        full_match_range: 0..1,
    });
    assert_eq!(formatted, "give $3.50");
}

#[test]
fn format_names_test() {
    let formatter: Formatter = FormatterSpec::Simple("honor ${color}$thing".to_string())
        .try_into()
        .unwrap();
    let formatted = formatter.format(MatchContext {
        named: vec![
            ("color".to_string(), text("Gray")),
            ("thing".to_string(), text("skull")),
        ],
        indexed: Default::default(),
        full_match_range: 0..1,
    });
    assert_eq!(formatted, "honor Grayskull");
}

#[test]
fn format_missing_groups_are_empty() {
    let formatter: Formatter = FormatterSpec::Simple("[$1|$name]".to_string())
        .try_into()
        .unwrap();
    let formatted = formatter.format(MatchContext {
        named: Default::default(),
        indexed: Default::default(),
        full_match_range: 0..1,
    });
    assert_eq!(formatted, "[|]");
}
