use kodachi::completion::recency::RecencyCompletionSource;
use kodachi::completion::{CompletionParams, CompletionSource};
use kodachi::history::{history_page, scroll_history, History, HistoryCursor, HistoryScrollDirection};

fn strings(values: &[&str]) -> Vec<String> {
    values.iter().map(|s| s.to_string()).collect()
}

#[test]
fn version_overflow_test() {
    let mut history = History::with_version(10000, u64::MAX);
    history.insert("String".to_string());
    assert_eq!(history.version(), 0);
}

#[test]
fn capacity_test() {
    let mut completions = RecencyCompletionSource::with_capacity(2);
    completions.process_line("for the honor");
    let suggestions = completions.suggest(&CompletionParams::empty());
    assert_eq!(suggestions, vec!["the", "honor"]);
}

#[test]
fn repeated_items_move_to_the_newest_end() {
    let mut history = History::with_capacity(10);
    history.insert_many(strings(&["a", "b", "c"]));
    history.insert("a".to_string());
    assert_eq!(history.to_vec(), strings(&["b", "c", "a"]));
    assert_eq!(history.len(), 3);
}

#[test]
fn scroll_to_most_recent_test() {
    let mut history = History::with_capacity(10);
    history.insert_many(strings(&["First", "Second"]));
    let (new_content, cursor) =
        scroll_history(&history, HistoryScrollDirection::Older, "".to_string(), None);
    assert_eq!(new_content, "Second");
    assert_eq!(cursor.unwrap().offset, 1);
}

#[test]
fn scroll_past_the_oldest_keeps_the_content() {
    let mut history = History::with_capacity(10);
    history.insert_many(strings(&["First", "Second"]));
    let cursor = HistoryCursor { limit: 1, offset: 0, version: 0, initial_content: None };
    let (new_content, cursor) =
        scroll_history(&history, HistoryScrollDirection::Older, "draft".to_string(), Some(cursor));
    assert_eq!(new_content, "draft");
    assert!(cursor.is_none());

    let (new_content, cursor) =
        scroll_history(&history, HistoryScrollDirection::Newer, "draft".to_string(), None);
    assert_eq!(new_content, "draft");
    assert!(cursor.is_none());
}

#[test]
fn history_pages() {
    let mut history = History::with_capacity(10);
    history.insert_many(strings(&["a", "b", "c", "d", "e"]));
    let page = history_page(&history, 2, None);
    assert_eq!(page.entries, strings(&["a", "b"]));
    let cursor = page.cursor.unwrap();
    assert_eq!((cursor.offset, cursor.limit, cursor.version), (2, 2, history.version()));

    let page = history_page(&history, 2, Some(cursor));
    assert_eq!(page.entries, strings(&["c", "d"]));
    let page = history_page(&history, 2, page.cursor);
    assert_eq!(page.entries, strings(&["e"]));
    assert!(page.cursor.is_none());

    let stale = HistoryCursor { limit: 3, offset: 4, version: 99, initial_content: None };
    let page = history_page(&history, 10, Some(stale));
    assert_eq!(page.entries, strings(&["a", "b", "c", "d", "e"]));
}

#[test]
fn scroll_older_then_newer_comes_back() {
    let mut history = History::with_capacity(10);
    history.insert_many(strings(&["a", "b", "c"]));
    let (newest, cursor) =
        scroll_history(&history, HistoryScrollDirection::Older, "draft".to_string(), None);
    assert_eq!(newest, "c");
    let (older, cursor) =
        scroll_history(&history, HistoryScrollDirection::Older, newest, cursor);
    assert_eq!(older, "b");
    assert_eq!(cursor.as_ref().unwrap().offset, 1);
    let (back, cursor) = scroll_history(&history, HistoryScrollDirection::Newer, older, cursor);
    assert_eq!(back, "c");
    assert_eq!(cursor.unwrap().offset, 2);
}
