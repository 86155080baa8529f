use adb_explorer::device_filelist::{plan_pane_update, PaneEvent};
use adb_explorer::layout::Layout;
use adb_explorer::listbox::{plan_scroll, ListBox, ScrollEvent};
use adb_explorer::modal::{button_x, recompute_sizes, select_left, select_right};

fn entries(n: usize) -> Vec<String> {
    let mut v = Vec::new();
    let mut i = 0;
    while i < n {
        v.push(format!("entry{}", i));
        i += 1;
    }
    v
}

fn pane() -> ListBox {
    // Ten rows tall: one page holds eight entries.
    ListBox::new(&Layout { x: 3, y: 1, w: 20, h: 10 }, false)
}

#[test]
fn new_listbox_is_empty_and_placed() {
    let lb = pane();
    assert!(lb.display.is_empty());
    assert_eq!(lb.get_position(), (3, 1));
    assert_eq!((lb.page, lb.position), (0, 0));
}

#[test]
fn page_count_rounds_up() {
    let mut lb = pane();
    lb.set_content(entries(20));
    assert_eq!(lb.get_page_count(), 3);
    lb.set_content(entries(16));
    assert_eq!(lb.get_page_count(), 2);
    lb.set_content(entries(1));
    assert_eq!(lb.get_page_count(), 1);
    lb.set_content(entries(0));
    assert_eq!(lb.get_page_count(), 0);
}

#[test]
fn scroll_down_walks_then_turns_the_page() {
    let mut lb = pane();
    lb.set_content(entries(20));
    for expected in 1..=8 {
        lb.scroll_down();
        assert_eq!(lb.position, expected);
    }
    lb.scroll_down();
    assert_eq!((lb.page, lb.position), (1, 0));
}

#[test]
fn scroll_down_on_last_page_stays_put() {
    let mut lb = pane();
    lb.set_content(entries(20));
    lb.page = 2;
    lb.position = 8;
    lb.scroll_down();
    assert_eq!((lb.page, lb.position), (2, 8));
}

#[test]
fn scroll_up_walks_then_turns_back() {
    let mut lb = pane();
    lb.set_content(entries(20));
    lb.page = 1;
    lb.position = 1;
    lb.scroll_up();
    assert_eq!((lb.page, lb.position), (1, 0));
    lb.scroll_up();
    assert_eq!((lb.page, lb.position), (0, 8));
}

#[test]
fn scroll_up_on_first_row_of_first_page_lands_on_last_row() {
    let mut lb = pane();
    lb.set_content(entries(20));
    lb.scroll_up();
    assert_eq!((lb.page, lb.position), (0, 8));
}

#[test]
fn set_content_rewinds_cursor_and_page() {
    let mut lb = pane();
    lb.set_content(entries(20));
    lb.page = 2;
    lb.position = 5;
    lb.set_content(entries(3));
    assert_eq!((lb.page, lb.position), (0, 0));
    assert_eq!(lb.display.len(), 3);
}

#[test]
fn selected_idx_counts_pages_by_pane_height() {
    let mut lb = pane();
    lb.set_content(entries(20));
    assert_eq!(lb.get_selected_idx(), 0);
    lb.position = 5;
    assert_eq!(lb.get_selected_idx(), 3);
    lb.page = 1;
    lb.position = 3;
    assert_eq!(lb.get_selected_idx(), 11);
}

#[test]
fn sel_idx_glob_offsets_by_page() {
    let mut lb = pane();
    lb.set_content(entries(20));
    lb.page = 2;
    assert_eq!(lb.sel_idx_glob(4), 24);
}

#[test]
fn remove_keeps_only_equal_entries() {
    let mut lb = pane();
    lb.set_content(vec!["a".to_string(), "b".to_string(), "a".to_string()]);
    lb.remove("a".to_string());
    assert_eq!(lb.display, vec!["a".to_string(), "a".to_string()]);
}

#[test]
fn selected_str_reads_the_cursor_row() {
    let mut lb = pane();
    lb.set_content(entries(5));
    lb.position = 2;
    assert_eq!(lb.get_selected_str(), "entry2");
}

#[test]
fn resize_moves_the_pane_and_rewinds_the_cursor() {
    let mut lb = pane();
    lb.set_content(entries(20));
    lb.position = 4;
    lb.resize(&Layout { x: 7, y: 2, w: 30, h: 12 });
    assert_eq!(lb.get_position(), (7, 2));
    assert_eq!(lb.position, 0);
    assert_eq!((lb.width, lb.height), (30, 12));
    assert_eq!(lb.get_page_count(), 2);
}

#[test]
fn modal_rectangle_for_a_short_message() {
    // Dialog two wider than the message, a quarter of the screen tall,
    // centred on the message.
    assert_eq!(recompute_sizes(100, 40, 20), (40, 10, 22, 10));
}

#[test]
fn modal_rectangle_clamps_to_minimums() {
    assert_eq!(recompute_sizes(100, 5, 3), ((100 - 3) / 2, 1, 10, 5));
}

#[test]
fn modal_rectangle_never_exceeds_the_terminal() {
    assert_eq!(recompute_sizes(100, 40, 200), (0, 10, 100, 10));
}

#[test]
fn button_positions_advance_by_label_width() {
    assert_eq!(button_x(0, 4), 2);
    assert_eq!(button_x(1, 4), 7);
    assert_eq!(button_x(2, 4), 12);
}

#[test]
fn selection_moves_saturate_at_the_ends() {
    assert_eq!(select_left(0), 0);
    assert_eq!(select_left(3), 2);
    assert_eq!(select_right(0, 3), 1);
    assert_eq!(select_right(2, 3), 2);
    assert_eq!(select_right(9, 3), 2);
}

#[test]
fn scroll_keys_move_only_a_focused_pane() {
    let both = ScrollEvent { down: true, up: true };
    assert_eq!(plan_scroll(true, both), (true, true));
    assert_eq!(plan_scroll(false, both), (false, false));
    assert_eq!(
        plan_scroll(true, ScrollEvent { down: true, up: false }),
        (true, false)
    );
    assert_eq!(
        plan_scroll(true, ScrollEvent { down: false, up: true }),
        (false, true)
    );
}

#[test]
fn enter_opens_only_when_focused() {
    let ev = PaneEvent { enter: true, tab: false, backspace: false };
    assert!(plan_pane_update(true, ev).open_selected);
    assert!(!plan_pane_update(false, ev).open_selected);
}

#[test]
fn tab_toggles_focus_before_backspace_is_read() {
    let ev = PaneEvent { enter: false, tab: true, backspace: true };
    let from_unfocused = plan_pane_update(false, ev);
    assert!(from_unfocused.focused);
    assert!(from_unfocused.level_up);
    let from_focused = plan_pane_update(true, ev);
    assert!(!from_focused.focused);
    assert!(!from_focused.level_up);
}

#[test]
fn backspace_alone_levels_up_a_focused_pane() {
    let ev = PaneEvent { enter: false, tab: false, backspace: true };
    assert!(plan_pane_update(true, ev).level_up);
    assert!(!plan_pane_update(false, ev).level_up);
}
