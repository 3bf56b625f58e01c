use kodachi::processing::ansi::Ansi;
use kodachi::ui::prompts::PromptsState;
use kodachi::ui::UiState;

#[test]
fn set_index_first() {
    let mut state = PromptsState::new();
    state.set_index(0, Ansi::from_str("grayskull"));
    assert_eq!(state.len(), 1);
}

#[test]
fn set_after_first() {
    let mut state = PromptsState::new();
    state.set_index(2, Ansi::from_str("grayskull"));
    assert_eq!(state.len(), 3);
    assert!(state.get(0).is_none());
    assert!(state.get(1).is_none());
    assert_eq!(state.get(2).unwrap().to_string(), "grayskull");
}

#[test]
fn switching_groups_and_back_restores_prompts() {
    let mut ui = UiState::new();
    let (text, changed) = ui.set_prompt_content(0, 0, Ansi::from_str("\x1b[1mHP\x1b[m: 10"), false);
    assert_eq!(text.plain, "HP: 10");
    assert_eq!(text.ansi, "\x1b[1mHP\x1b[m: 10");
    assert!(!changed);

    let (_, changed) = ui.set_prompt_content(7, 1, Ansi::from_str("combat"), true);
    assert!(changed);
    assert_eq!(ui.active_prompt_group, 7);
    assert_eq!(ui.prompts.len(), 2);
    assert!(ui.prompts.get(0).is_none());
    assert_eq!(ui.prompts.get(1).unwrap().to_string(), "combat");

    assert!(ui.set_active_prompt_group(0));
    assert_eq!(ui.prompts.len(), 1);
    assert_eq!(ui.prompts.get(0).unwrap().to_string(), "\x1b[1mHP\x1b[m: 10");

    assert!(!ui.set_active_prompt_group(0));
    assert!(ui.set_active_prompt_group(7));
    assert_eq!(ui.prompts.get(1).unwrap().to_string(), "combat");
}

#[test]
fn setting_an_inactive_group_keeps_the_shown_prompts() {
    let mut ui = UiState::new();
    ui.set_prompt_content(0, 0, Ansi::from_str("shown"), false);
    ui.set_prompt_content(3, 0, Ansi::from_str("aside"), false);
    assert_eq!(ui.active_prompt_group, 0);
    assert_eq!(ui.prompts.get(0).unwrap().to_string(), "shown");
    ui.set_active_prompt_group(3);
    assert_eq!(ui.prompts.get(0).unwrap().to_string(), "aside");
}

#[test]
fn clearing_forgets_all_prompts() {
    let mut ui = UiState::new();
    ui.set_prompt_content(0, 0, Ansi::from_str("shown"), false);
    ui.set_prompt_content(3, 0, Ansi::from_str("aside"), false);
    ui.clear();
    assert!(ui.prompts.is_empty());
    ui.set_active_prompt_group(3);
    assert!(ui.prompts.is_empty());
}
