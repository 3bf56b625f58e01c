use kodachi::matchers::{Matcher, MatcherSpec};
use kodachi::notifications::MatchContext;
use kodachi::processing::ansi::Ansi;
use kodachi::processing::send::{ProcessResult, SendStep, SendTextProcessor};
use kodachi::processing::text::{LineMatch, LinePlan, MatcherId, MatcherMode, TextProcessor};

fn matcher(source: &str) -> Matcher {
    MatcherSpec::Regex {
        options: Default::default(),
        source: source.to_string(),
    }
    .try_into()
    .unwrap()
}

fn run(
    processor: &SendTextProcessor,
    handlers: &[&dyn Fn(MatchContext) -> ProcessResult],
    input: &str,
) -> Result<Option<String>, String> {
    let mut state = processor.start(input.to_string());
    loop {
        let mut step = processor.step(&mut state);
        loop {
            match step {
                SendStep::Continue => break,
                SendStep::Handle { index, context } => {
                    step = processor.handled(&mut state, handlers[index](context));
                }
                SendStep::Done(result) => return Ok(result),
                SendStep::InfiniteLoop => return Err("Infinite loop detected".to_string()),
                SendStep::InvalidMatch => return Err("invalid match".to_string()),
            }
        }
    }
}

#[test]
fn single_replacement_test() {
    let mut processor = SendTextProcessor::new();
    processor.register_matcher(matcher("activate (.*)"));
    let handler = |context: MatchContext| {
        ProcessResult::ReplaceWith(format!(
            "yell For the Honor of Grayskull, {}!",
            context.get_indexed(1).unwrap().plain
        ))
    };
    let result = run(&processor, &[&handler], "activate sword").unwrap();
    assert_eq!(
        result.expect("Processing was unexpectedly stopped"),
        "yell For the Honor of Grayskull, sword!"
    );
}

#[test]
fn non_start_replacement_test() {
    let mut processor = SendTextProcessor::new();
    processor.register_matcher(matcher("honor (.*)"));
    let handler = |context: MatchContext| {
        ProcessResult::ReplaceWith(format!(
            "yell For the Honor of {}!",
            context.get_indexed(1).unwrap().plain
        ))
    };
    let result = run(&processor, &[&handler], "Let's honor Grayskull").unwrap();
    assert_eq!(
        result.expect("Processing was unexpectedly stopped"),
        "Let's yell For the Honor of Grayskull!"
    );
}

#[test]
fn detect_recursion_test() {
    let mut processor = SendTextProcessor::new();
    processor.register_matcher(matcher("honor (.*)"));
    let handler = |context: MatchContext| {
        ProcessResult::ReplaceWith(format!(
            "yell for the honor of {}!",
            context.get_indexed(1).unwrap().plain
        ))
    };
    let err = run(&processor, &[&handler], "honor Grayskull").expect_err("Expected a recursion error");
    assert!(err.contains("Infinite loop"));
}

#[test]
fn multi_replacement_test() {
    let mut processor = SendTextProcessor::new();
    processor.register_matcher(matcher("^honor (.*)"));
    processor.register_matcher(matcher("honor of ([a-z]+)"));
    let first = |context: MatchContext| {
        ProcessResult::ReplaceWith(format!(
            "yell For the honor of {}!",
            context.get_indexed(1).unwrap().plain
        ))
    };
    let second = |context: MatchContext| {
        ProcessResult::ReplaceWith(format!(
            "Honor of {}!",
            context.get_indexed(1).unwrap().plain.to_uppercase()
        ))
    };
    let result = run(&processor, &[&first, &second], "honor grayskull").unwrap();
    assert_eq!(
        result.expect("Processing was unexpectedly stopped"),
        "yell For the Honor of GRAYSKULL!!"
    );
}

#[test]
fn stop_sends_nothing() {
    let mut processor = SendTextProcessor::new();
    processor.register_matcher(matcher("^quit$"));
    let handler = |_context: MatchContext| ProcessResult::Stop;
    assert_eq!(run(&processor, &[&handler], "quit").unwrap(), None);
    assert_eq!(run(&processor, &[&handler], "look").unwrap(), Some("look".to_string()));
}

fn feed(processor: &mut TextProcessor, text: &str) -> Vec<String> {
    let bytes = Ansi::from_str(text).into_inner();
    let mut printed = Vec::new();
    let mut offset = 0;
    while offset < bytes.len() {
        let (read, full) = processor.buffer_chunk(&bytes[offset..]);
        match processor.prepare_line(full) {
            LinePlan::Wait => {}
            LinePlan::Full(line) => match processor.perform_match(line, MatcherMode::FullLine) {
                LineMatch::Matched { remaining, .. } => {
                    if let Some(rest) = remaining {
                        printed.push(rest.to_string());
                    }
                }
                LineMatch::Ignored(line) => printed.push(line.to_string()),
            },
            LinePlan::Partial(line) => match processor.perform_match(line, MatcherMode::PartialLine) {
                LineMatch::Matched { remaining, .. } => {
                    if let Some(rest) = remaining {
                        printed.push(rest.to_string());
                    }
                }
                LineMatch::Ignored(line) => printed.push(line.to_string()),
            },
        }
        offset += read;
    }
    printed
}

#[test]
fn text_processor_full_line() {
    let mut processor = TextProcessor::new();
    assert_eq!(feed(&mut processor, "Everything is fine\n"), vec!["Everything is fine\n"]);
}

#[test]
fn text_processor_multi_lines() {
    let mut processor = TextProcessor::new();
    let printed = feed(&mut processor, "\nEverything\nIs");
    assert_eq!(printed, vec!["\n", "Everything\n", "Is"]);
}

#[test]
fn text_processor_carriage_returns() {
    let mut processor = TextProcessor::new();
    let printed = feed(&mut processor, "Everything\n\rIs\n");
    assert_eq!(printed, vec!["Everything\n", "Is\n"]);
}

#[test]
fn full_line_matchers_skip_partial_lines() {
    let mut processor = TextProcessor::new();
    let mut consuming = matcher("^Is$");
    consuming.options.consume = true;
    processor.register_matcher(MatcherId::Handler(1), consuming, MatcherMode::FullLine);
    assert_eq!(feed(&mut processor, "Is"), vec!["Is"]);
    let mut processor = TextProcessor::new();
    let mut consuming = matcher("^Is$");
    consuming.options.consume = true;
    processor.register_matcher(MatcherId::Handler(1), consuming, MatcherMode::FullLine);
    assert_eq!(feed(&mut processor, "Is\n"), Vec::<String>::new());
}
