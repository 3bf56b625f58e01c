use kodachi::matchers::simple::build_simple_matcher_regex;
use kodachi::matchers::{MatchResult, MatchedResult, Matcher, MatcherCompileError, MatcherOptions, MatcherSpec};
use kodachi::processing::ansi::Ansi;

fn regex_matcher(source: &str, consume: bool) -> Matcher {
    let spec = MatcherSpec::Regex {
        options: MatcherOptions { consume },
        source: source.to_string(),
    };
    spec.try_into().unwrap()
}

#[test]
fn build_indexed_pattern_test() {
    let pattern = build_simple_matcher_regex("$1 {activate} $2 [now]").unwrap();
    assert_eq!(pattern, r"(.+) \{activate\} (.+) \[now\]");
}

#[test]
fn build_named_pattern_test() {
    let pattern = build_simple_matcher_regex("$first {activate} $second [now]").unwrap();
    assert_eq!(pattern, r"(?P<first>.+) \{activate\} (?P<second>.+) \[now\]");
}

#[test]
fn build_disambiguated_named_pattern_test() {
    let pattern = build_simple_matcher_regex("${first}and${second}").unwrap();
    assert_eq!(pattern, r"(?P<first>.+)and(?P<second>.+)");
}

#[test]
fn accept_line_start_test() {
    let pattern = build_simple_matcher_regex("^admire $thing").unwrap();
    assert_eq!(pattern, r"^admire (?P<thing>.+)");
}

#[test]
fn out_of_order_indexes_are_refused() {
    assert!(matches!(
        build_simple_matcher_regex("$2 then $1"),
        Err(MatcherCompileError::OutOfOrderIndexes)
    ));
}

#[test]
fn escaped_dollars_stay_literal() {
    let pattern = build_simple_matcher_regex("give $$3.50").unwrap();
    assert_eq!(pattern, r"give \$\$3\.50");
}

#[test]
fn invalid_regex_is_a_syntax_error() {
    let spec = MatcherSpec::Regex {
        options: Default::default(),
        source: "(unclosed".to_string(),
    };
    assert!(matches!(spec.try_into(), Err(MatcherCompileError::SyntaxError(_))));
}

#[test]
fn indexed_matches_test() {
    let matcher = regex_matcher("say '(.*)'", false);
    if let MatchResult::Matched(MatchedResult { remaining, context, .. }) =
        matcher.try_match(Ansi::from_str("say 'anything'"))
    {
        assert_eq!(remaining.unwrap().to_string(), "say 'anything'");
        assert_eq!(context.get_indexed(0).unwrap().plain, "say 'anything'");
        assert_eq!(context.get_indexed(1).unwrap().plain, "anything");
    } else {
        panic!("Expected the matcher to match... but it didn't");
    }
}

#[test]
fn indexed_ansi_matches_test() {
    let matcher = regex_matcher("say '(.*)'", false);
    if let MatchResult::Matched(MatchedResult { remaining, context, .. }) =
        matcher.try_match(Ansi::from_str("say '\x1b[32manything\x1b[m'"))
    {
        assert_eq!(remaining.unwrap().to_string(), "say '\x1b[32manything\x1b[m'");
        assert_eq!(context.get_indexed(0).unwrap().ansi, "say '\x1b[32manything\x1b[m'");
        assert_eq!(context.get_indexed(1).unwrap().ansi, "\x1b[32manything\x1b[m");
        assert_eq!(context.get_indexed(0).unwrap().plain, "say 'anything'");
        assert_eq!(context.get_indexed(1).unwrap().plain, "anything");
    } else {
        panic!("Expected the matcher to match... but it didn't");
    }
}

#[test]
fn named_matches_test() {
    let matcher = regex_matcher("say '(?P<message>.*)'", false);
    if let MatchResult::Matched(MatchedResult { remaining: Some(remaining), context, .. }) =
        matcher.try_match(Ansi::from_str("say 'anything'"))
    {
        assert_eq!(remaining.to_string(), "say 'anything'");
        assert_eq!(context.get_indexed(0).unwrap().plain, "say 'anything'");
        assert_eq!(context.get_named("message").unwrap().plain, "anything");
    } else {
        panic!("Expected the matcher to match... but it didn't");
    }
}

#[test]
fn named_ansi_matches_test() {
    let matcher = regex_matcher("say '(?P<message>.*)'", false);
    if let MatchResult::Matched(MatchedResult { remaining: Some(remaining), context, .. }) =
        matcher.try_match(Ansi::from_str("say '\x1b[32manything\x1b[m'"))
    {
        assert_eq!(remaining.to_string(), "say '\x1b[32manything\x1b[m'");
        assert_eq!(context.get_indexed(0).unwrap().plain, "say 'anything'");
        assert_eq!(context.get_indexed(0).unwrap().ansi, "say '\x1b[32manything\x1b[m'");
        assert_eq!(context.get_named("message").unwrap().plain, "anything");
        assert_eq!(context.get_named("message").unwrap().ansi, "\x1b[32manything\x1b[m");
    } else {
        panic!("Expected the matcher to match... but it didn't");
    }
}

#[test]
fn consume_full_line() {
    let mut matcher = regex_matcher("say '(?P<message>.*)'", false);
    matcher.options.consume = true;
    if let MatchResult::Matched(MatchedResult { remaining, context, consumed }) =
        matcher.try_match(Ansi::from_str("say '\x1b[32manything\x1b[m'"))
    {
        assert!(consumed);
        assert!(remaining.is_none());
        assert_eq!(context.get_indexed(0).unwrap().plain, "say 'anything'");
        assert_eq!(context.get_indexed(0).unwrap().ansi, "say '\x1b[32manything\x1b[m'");
        assert_eq!(context.get_named("message").unwrap().plain, "anything");
        assert_eq!(context.get_named("message").unwrap().ansi, "\x1b[32manything\x1b[m");
    } else {
        panic!("Expected the matcher to match... but it didn't");
    }
}

#[test]
fn consume_within_line() {
    let mut matcher = regex_matcher("say '(?P<message>.*)'", false);
    matcher.options.consume = true;
    if let MatchResult::Matched(MatchedResult { remaining: Some(remaining), context, consumed }) =
        matcher.try_match(Ansi::from_str("just say '\x1b[32manything\x1b[m' you know!"))
    {
        assert!(consumed);
        assert_eq!(remaining.to_string(), "just  you know!");
        assert_eq!(context.get_indexed(0).unwrap().plain, "say 'anything'");
        assert_eq!(context.get_indexed(0).unwrap().ansi, "say '\x1b[32manything\x1b[m'");
        assert_eq!(context.get_named("message").unwrap().plain, "anything");
        assert_eq!(context.get_named("message").unwrap().ansi, "\x1b[32manything\x1b[m");
    } else {
        panic!("Expected the matcher to match... but it didn't");
    }
}

#[test]
fn consume_against_newlines() {
    let mut matcher = regex_matcher("^.*honor.*$", false);
    matcher.options.consume = true;
    if let MatchResult::Matched(MatchedResult { remaining, context, consumed }) =
        matcher.try_match(Ansi::from_str("For the honor of Grayskull!\r\n"))
    {
        assert!(consumed);
        assert!(remaining.is_none());
        assert_eq!(context.get_indexed(0).unwrap().plain, "For the honor of Grayskull!");
    } else {
        panic!("Expected the matcher to match... but it didn't");
    }
}

#[test]
fn simple() {
    let spec = MatcherSpec::Simple {
        options: Default::default(),
        source: "^wrap $burrito".to_string(),
    };
    let matcher: Matcher = spec.try_into().unwrap();
    if let MatchResult::Matched(MatchedResult { context, .. }) =
        matcher.try_match(Ansi::from_str("wrap alpastor"))
    {
        assert_eq!(context.get_named("burrito").unwrap().plain, "alpastor");
    } else {
        panic!("Expected the matcher to match... but it didn't");
    }
}

#[test]
fn no_match_gives_the_subject_back() {
    let matcher = regex_matcher("^honor$", false);
    match matcher.try_match(Ansi::from_str("grayskull")) {
        MatchResult::Ignored(subject) => assert_eq!(subject.to_string(), "grayskull"),
        MatchResult::Matched(_) => panic!("should not match"),
    }
}

#[test]
fn take_full_match_removes_group_zero() {
    let matcher = regex_matcher("say (.*)", false);
    if let MatchResult::Matched(MatchedResult { mut context, .. }) =
        matcher.try_match(Ansi::from_str("say hi"))
    {
        let full = context.take_full_match();
        assert_eq!(full.plain, "say hi");
        assert!(context.get_indexed(0).is_none());
        assert_eq!(context.get_indexed(1).unwrap().plain, "hi");
    } else {
        panic!("Expected the matcher to match... but it didn't");
    }
}
