use kodachi::completion::chained;
use kodachi::completion::duplex::weighted::{
    StaticRandomnessSource, WeightedRandomSelectorFactory,
};
use kodachi::completion::duplex::word_index::WordIndexSelectorFactory;
use kodachi::completion::duplex::{
    DuplexCompletionSource, DuplexSelector, DuplexSelectorFactory, SelectionResult,
};
use kodachi::completion::filtering::candidate_matches_params;
use kodachi::completion::markov::MarkovCompletionSource;
use kodachi::completion::tokens::Tokens;
use kodachi::completion::transforms::{CharTransform, WordTransform};
use kodachi::completion::{CompletionParams, CompletionSource};

fn markov_source() -> MarkovCompletionSource {
    let mut source = MarkovCompletionSource::new();
    source.process_line("Take my love");
    source.process_line("I'm still free");
    source.process_line("Take me where I cannot stand");
    source.process_line("I don't care");
    source.process_line("Take my land");
    source
}

fn assert_params_accept(params: &CompletionParams, candidate: &str, should_accept: bool) {
    let did_accept = candidate_matches_params(params, candidate);
    assert_eq!(did_accept, should_accept, "candidate {:?}", candidate);
}

#[test]
fn duplex_duplex_test() {
    let mut a = MarkovCompletionSource::new();
    let mut b = MarkovCompletionSource::new();
    a.process_line("honor");
    b.process_line("grayskull");

    let duplex = chained::DuplexCompletionSource::new(a, b);
    let suggestions = duplex.suggest(&CompletionParams::empty());
    assert_eq!(suggestions, vec!["honor", "grayskull"]);
}

#[test]
fn mod_duplex_test() {
    let mut a = MarkovCompletionSource::new();
    let mut b = MarkovCompletionSource::new();
    a.process_line("honor");
    b.process_line("grayskull");

    let duplex =
        DuplexCompletionSource::new(a, b, WeightedRandomSelectorFactory::with_weights(100, 0));
    let suggestions = duplex.suggest(&CompletionParams::empty());
    assert_eq!(suggestions, vec!["honor", "grayskull"]);
}

#[test]
fn weighted_selection() {
    let random = StaticRandomnessSource::with_values(vec![59, 61, 42, 20, 2]);
    let mut selector = WeightedRandomSelectorFactory {
        weights: (60, 40),
        random,
    }
    .create(&CompletionParams::empty());

    // 0.59 - below 60 should go to first source
    assert_eq!(selector.select(), SelectionResult::First);

    // 0.61 - above 60 should go to second source
    assert_eq!(selector.select(), SelectionResult::Second);
}

#[test]
fn word_index_empty_params_test() {
    let factory = WordIndexSelectorFactory::with_weights_by_index(vec![(100, 0), (0, 100)]);
    let mut empty = factory.create(&CompletionParams::empty());
    assert_eq!(empty.select(), SelectionResult::First);
}

#[test]
fn first_word_test() {
    let factory = WordIndexSelectorFactory::with_weights_by_index(vec![(100, 0), (0, 100)]);
    let mut empty = factory.create(&CompletionParams::from_line_to_cursor("fir"));
    assert_eq!(empty.select(), SelectionResult::First);
}

#[test]
fn second_word_test() {
    let factory = WordIndexSelectorFactory::with_weights_by_index(vec![(100, 0), (0, 100)])
        .with_random(StaticRandomnessSource::with_values(vec![1]));
    let mut empty = factory.create(&CompletionParams::from_line_to_cursor("first "));
    assert_eq!(empty.select(), SelectionResult::Second);
}

#[test]
fn filtering_empty_params_test() {
    let params = CompletionParams::empty();
    assert_params_accept(&params, "alpastor", true);
    assert_params_accept(&params, "andpinto", true);
}

#[test]
fn ordered_filtering_test() {
    let params = CompletionParams::from_word("ap");
    assert_params_accept(&params, "alpastor", true);
    assert_params_accept(&params, "andpinto", true);
    assert_params_accept(&params, "plus ultra", false);
}

#[test]
fn case_insensitivity() {
    let params = CompletionParams::from_word("Ap");
    assert_params_accept(&params, "alpastor", true);
    assert_params_accept(&params, "andpinto", true);
    assert_params_accept(&params, "plus ultra", false);
}

#[test]
fn first_completion_test() {
    let source = markov_source();
    let params = CompletionParams::from_word("t");
    let suggestions = source.suggest(&params);
    assert_eq!(
        suggestions
            .first()
            .expect("Expected to have a suggestion")
            .to_string(),
        "take"
    );
}

#[test]
fn sequence_completion_test() {
    let source = markov_source();
    let params = CompletionParams {
        word_to_complete: "m".to_string(),
        line_to_cursor: "take m".to_string(),
        line: "take m".to_string(),
    };
    assert_eq!(source.suggest(&params), vec!["my", "me"]);

    // Do it one more time to prove it wasn't a fluke
    assert_eq!(source.suggest(&params), vec!["my", "me"]);
}

#[test]
fn word_to_complete_test() {
    let params = CompletionParams::from_line_to_cursor("For the hon");
    assert_eq!(params.word_to_complete(), "hon");

    let params = CompletionParams::from_line_to_cursor("For the ");
    assert_eq!(params.word_to_complete(), "");
}

#[test]
fn tokens_before_cursor_test() {
    let params = CompletionParams::from_line_to_cursor("For the hon");
    assert_eq!(params.tokens_before_cursor(), vec!["for", "the"]);
}

#[test]
fn word_index_counts_spaces() {
    assert_eq!(CompletionParams::from_line_to_cursor("").word_index(), 0);
    assert_eq!(CompletionParams::from_line_to_cursor("take").word_index(), 0);
    assert_eq!(CompletionParams::from_line_to_cursor("take my ").word_index(), 2);
}

#[test]
fn matching_word_test() {
    let title = WordTransform::matching_word("Grayskull");
    assert_eq!(title.first, CharTransform::Upper);
    assert_eq!(title.rest, CharTransform::Lower);

    let lower = WordTransform::matching_word("sword");
    assert_eq!(lower.first, CharTransform::Lower);
    assert_eq!(lower.rest, CharTransform::Lower);

    let upper = WordTransform::matching_word("HONOR");
    assert_eq!(upper.first, CharTransform::Upper);
    assert_eq!(upper.rest, CharTransform::Upper);
}

#[test]
fn transform_test() {
    let transform = WordTransform::matching_word("Grayskull");
    assert_eq!(transform.transform("adORa"), "Adora");
}

#[test]
fn transform_keeps_symbols() {
    let transform = WordTransform::matching_word("?x");
    assert_eq!(transform.first, CharTransform::Nop);
    assert_eq!(transform.transform("aB"), "ab");
}

#[test]
fn test_empty() {
    assert_eq!(Tokens::from("").iter(), Vec::<String>::default());
    assert_eq!(Tokens::significant_from("").iter(), Vec::<String>::default());
}

#[test]
fn test_symbols() {
    assert_eq!(Tokens::from("( *$ ][").iter(), Vec::<String>::default());
    assert_eq!(
        Tokens::significant_from("( *$ ][").iter(),
        Vec::<String>::default()
    );
}

#[test]
fn test_words() {
    assert_eq!(
        Tokens::from("You can't (take)").iter(),
        ["you", "can't", "take"]
    );
}

#[test]
fn test_significant_words() {
    assert_eq!(
        Tokens::from("it's no big deal").iter(),
        ["it's", "no", "big", "deal"]
    );
    assert_eq!(
        Tokens::significant_from("it's no big deal").iter(),
        ["big", "deal"]
    );
}

#[test]
fn unused_bad_weights_do_not_stop_a_factory() {
    let factory = WordIndexSelectorFactory::with_weights_by_index(vec![(100, 0), (7, 7)])
        .with_random(StaticRandomnessSource::with_values(vec![50]));
    let first_word = CompletionParams::from_line_to_cursor("fir");
    assert!(factory.can_create_for(&first_word));
    let mut selector = factory.create(&first_word);
    assert_eq!(selector.select(), SelectionResult::First);
    assert!(!factory.can_create_for(&CompletionParams::from_line_to_cursor("first sec")));

    let empty = WordIndexSelectorFactory::with_weights_by_index(vec![]);
    assert!(!empty.can_create_for(&CompletionParams::empty()));
}

#[test]
fn merged_suggestions_interleave_both_sources() {
    let mut a = MarkovCompletionSource::new();
    let mut b = MarkovCompletionSource::new();
    a.process_line("honor");
    a.process_line("courage");
    b.process_line("grayskull");
    let factory = WeightedRandomSelectorFactory::with_weights(50, 50)
        .with_random(StaticRandomnessSource::with_values(vec![90, 10, 10]));
    let duplex = DuplexCompletionSource::new(a, b, factory);
    let suggestions = duplex.suggest(&CompletionParams::empty());
    assert_eq!(suggestions, vec!["grayskull", "honor", "courage"]);
}

#[test]
fn transforming_twice_changes_nothing_more() {
    let transform = WordTransform::matching_word("Grayskull");
    let once = transform.transform("sWORD");
    assert_eq!(once, "Sword");
    assert_eq!(transform.transform(&once), once);
    assert_eq!(WordTransform::matching_word("").transform("HeLLo"), "HeLLo");
}
