use filewatch::ui::{
    action_for_key, get_log_at_scroll_pos, visible_rows, App, KeyInput, LogsWidget,
    LogsWidgetState, UiAction,
};

fn lines(v: &[&str]) -> Vec<String> {
    v.iter().map(|s| s.to_string()).collect()
}

fn sample() -> Vec<String> {
    // wrapped-row counts at width 10: [2, 1, 3], six rows in all
    lines(&["hello world!", "short", "very long message here"])
}

#[test]
fn pagination_boundary_top() {
    let logs = sample();
    let (li, off, actual, at_bottom) = get_log_at_scroll_pos(&logs, 10, 1, 0);
    assert_eq!((li, off, actual), (0, 0, 0));
    assert!(!at_bottom);
}

#[test]
fn pagination_boundary_middle() {
    let logs = sample();
    // row 3 is the first wrapped row of the third logical line
    let (li, off, actual, at_bottom) = get_log_at_scroll_pos(&logs, 10, 1, 3);
    assert_eq!((li, off, actual), (2, 0, 3));
    assert!(!at_bottom);
}

#[test]
fn pagination_boundary_last_row() {
    let logs = sample();
    let (li, off, actual, at_bottom) = get_log_at_scroll_pos(&logs, 10, 1, 5);
    assert_eq!((li, off, actual), (2, 20, 5));
    assert!(at_bottom);
}

#[test]
fn pagination_jump_to_end_sentinel_clamps() {
    let logs = sample();
    let (li, off, actual, at_bottom) = get_log_at_scroll_pos(&logs, 10, 1, usize::MAX);
    assert_eq!((li, off, actual), (2, 20, 5));
    assert!(at_bottom);
}

#[test]
fn pagination_request_past_end_clamps_to_last_page() {
    let logs = sample();
    // height 4: the last page starts at row 2 so that rows 2..6 fill it
    let (li, off, actual, at_bottom) = get_log_at_scroll_pos(&logs, 10, 4, 100);
    assert_eq!((li, off, actual), (1, 0, 2));
    assert!(at_bottom);
}

#[test]
fn pagination_row_walk_crosses_lines() {
    let logs = sample();
    let (li, off, _, _) = get_log_at_scroll_pos(&logs, 10, 1, 1);
    assert_eq!((li, off), (0, 10));
    let (li, off, _, _) = get_log_at_scroll_pos(&logs, 10, 1, 2);
    assert_eq!((li, off), (1, 0));
    let (li, off, _, _) = get_log_at_scroll_pos(&logs, 10, 1, 4);
    assert_eq!((li, off), (2, 10));
}

#[test]
fn pagination_empty_logs_report_bottom() {
    let logs: Vec<String> = Vec::new();
    let (li, off, actual, at_bottom) = get_log_at_scroll_pos(&logs, 10, 5, 0);
    assert_eq!((li, off, actual), (0, 0, 0));
    assert!(at_bottom);
}

#[test]
fn zero_length_line_occupies_one_row() {
    let logs = lines(&["", "ab"]);
    let (li, off, actual, at_bottom) = get_log_at_scroll_pos(&logs, 10, 1, 1);
    assert_eq!((li, off, actual), (1, 0, 1));
    assert!(at_bottom);
}

#[test]
fn visible_rows_wrap_at_width() {
    let logs = sample();
    let rows = visible_rows(&logs, 10, 6, 0, 0);
    assert_eq!(
        rows,
        lines(&["hello worl", "d!", "short", "very long ", "message he", "re"])
    );
}

#[test]
fn visible_rows_start_mid_line_and_stop_at_height() {
    let logs = sample();
    let rows = visible_rows(&logs, 10, 2, 2, 10);
    assert_eq!(rows, lines(&["message he", "re"]));
}

#[test]
fn widget_carries_logs_and_scroll() {
    let w = LogsWidget::new(sample()).scroll(3);
    assert_eq!(w.scroll_y, 3);
    assert_eq!(w.logs, sample());
    let mut state = LogsWidgetState::default();
    let pos = w.resolve_page(10, 1, &mut state);
    assert_eq!(pos, (2, 0));
    assert_eq!(state.actual_scroll_y, 3);
    assert!(!state.was_at_bottom);
    assert_eq!(state.last_log_count, 3);
    assert_eq!(state.height, 1);
}

#[test]
fn auto_follow_keeps_the_view_at_the_bottom() {
    let mut app = App::default();
    app.set_log_lines(lines(&["a"]));
    let rows = app.visible_page(10, 1);
    assert_eq!(rows, lines(&["a"]));
    assert!(app.logs_widget_state.was_at_bottom);

    // one more line arrives; no scroll input: the view follows the tail
    app.set_log_lines(lines(&["a", "b"]));
    let rows = app.visible_page(10, 1);
    assert_eq!(rows, lines(&["b"]));
    assert!(app.logs_widget_state.was_at_bottom);
    assert_eq!(app.logs_widget_state.actual_scroll_y, 1);
}

#[test]
fn no_auto_follow_when_scrolled_away_from_the_bottom() {
    let mut app = App::default();
    app.set_log_lines(lines(&["a", "b", "c"]));
    app.set_scroll(0);
    let rows = app.visible_page(10, 1);
    assert_eq!(rows, lines(&["a"]));
    assert!(!app.logs_widget_state.was_at_bottom);

    app.set_log_lines(lines(&["a", "b", "c", "d"]));
    let rows = app.visible_page(10, 1);
    assert_eq!(rows, lines(&["a"]));
    assert!(!app.logs_widget_state.was_at_bottom);
}

#[test]
fn scrolling_saturates_at_both_ends() {
    let mut app = App::default();
    app.scroll_up(5);
    assert_eq!(app.vertical_scroll_pos, 0);
    app.scroll_down(3);
    assert_eq!(app.vertical_scroll_pos, 3);
    app.scroll_up(1);
    assert_eq!(app.vertical_scroll_pos, 2);
    app.set_scroll(usize::MAX);
    app.scroll_down(1);
    assert_eq!(app.vertical_scroll_pos, usize::MAX);
}

#[test]
fn key_bindings() {
    assert_eq!(action_for_key(&KeyInput::CharKey('q')), UiAction::Quit);
    assert_eq!(action_for_key(&KeyInput::CharKey('g')), UiAction::JumpToEnd);
    assert_eq!(
        action_for_key(&KeyInput::CharKey('j')),
        UiAction::ScrollDownOne
    );
    assert_eq!(
        action_for_key(&KeyInput::CharKey('k')),
        UiAction::ScrollUpOne
    );
    assert_eq!(action_for_key(&KeyInput::DownKey), UiAction::ScrollDownOne);
    assert_eq!(action_for_key(&KeyInput::UpKey), UiAction::ScrollUpOne);
    assert_eq!(action_for_key(&KeyInput::PageUpKey), UiAction::PageUp);
    assert_eq!(action_for_key(&KeyInput::PageDownKey), UiAction::PageDown);
    assert_eq!(action_for_key(&KeyInput::CharKey('x')), UiAction::NoAction);
    assert_eq!(action_for_key(&KeyInput::OtherKey), UiAction::NoAction);
}

#[test]
fn applying_actions_moves_the_scroll_request() {
    let mut app = App::default();
    assert!(!app.apply_action(&UiAction::ScrollDownOne, 5));
    assert_eq!(app.vertical_scroll_pos, 1);
    assert!(!app.apply_action(&UiAction::PageDown, 5));
    assert_eq!(app.vertical_scroll_pos, 6);
    assert!(!app.apply_action(&UiAction::ScrollUpOne, 5));
    assert_eq!(app.vertical_scroll_pos, 5);
    assert!(!app.apply_action(&UiAction::PageUp, 5));
    assert_eq!(app.vertical_scroll_pos, 0);
    assert!(!app.apply_action(&UiAction::JumpToEnd, 5));
    assert_eq!(app.vertical_scroll_pos, usize::MAX);
    assert!(!app.apply_action(&UiAction::NoAction, 5));
    assert_eq!(app.vertical_scroll_pos, usize::MAX);
    assert!(app.apply_action(&UiAction::Quit, 5));
    assert_eq!(app.vertical_scroll_pos, usize::MAX);
}
