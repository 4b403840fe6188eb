use flamelens::app::App;
use flamelens::flame::{FlameGraph, ROOT_ID};
use flamelens::pattern::SearchPattern;
use flamelens::state::ViewKind;
use flamelens::view::FlameGraphView;

fn parse(content: &str, sorted: bool) -> FlameGraph {
    FlameGraph::try_from_string(String::from(content), sorted).expect("input fits u64 totals")
}

fn get_id(view: &FlameGraphView, full_name: &str) -> usize {
    view.flamegraph
        .get_stack_by_full_name(full_name)
        .unwrap_or_else(|| panic!("no stack named {}", full_name))
        .id
}

fn get_selected_short_name(view: &FlameGraphView) -> String {
    view.flamegraph
        .get_stack_short_name(&view.state.selected)
        .unwrap()
        .to_string()
}

fn simple_capture() -> FlameGraph {
    // Shaped like a small py-spy capture of a long-running script.
    let content = "\
<module> (long_running.py:25);work (long_running.py:7) 280\n\
<module> (long_running.py:25) 20\n\
<module> (long_running.py:24);quick_work (long_running.py:17) 200\n\
<module> (long_running.py:24) 10\n\
<process> 147\n";
    parse(content, true)
}

#[test]
fn test_get_next_sibling() {
    let fg = simple_capture();
    let view = FlameGraphView::new(fg);

    let result = view.get_next_sibling(&ROOT_ID);
    assert_eq!(result, None);

    let result = view.get_next_sibling(&get_id(&view, "<module> (long_running.py:25)"));
    assert_eq!(
        result.unwrap(),
        get_id(&view, "<module> (long_running.py:24)")
    );

    let result = view.get_next_sibling(&get_id(
        &view,
        "<module> (long_running.py:25);work (long_running.py:7)",
    ));
    assert_eq!(
        result.unwrap(),
        get_id(
            &view,
            "<module> (long_running.py:24);quick_work (long_running.py:17)"
        ),
    );
}

#[test]
fn test_get_previous_sibling() {
    let fg = simple_capture();
    let view = FlameGraphView::new(fg);

    let result = view.get_previous_sibling(&ROOT_ID);
    assert_eq!(result, None);

    let result = view.get_previous_sibling(&get_id(&view, "<module> (long_running.py:24)"));
    assert_eq!(
        result.unwrap(),
        get_id(&view, "<module> (long_running.py:25)")
    );

    let result = view.get_previous_sibling(&get_id(
        &view,
        "<module> (long_running.py:24);quick_work (long_running.py:17)",
    ));
    assert_eq!(
        result.unwrap(),
        get_id(
            &view,
            "<module> (long_running.py:25);work (long_running.py:7)",
        ),
    );
}

#[test]
fn test_get_next_and_previous_search_result() {
    let content = "\
level1-a;level2-a 1\n\
level1-a;level2-b 1\n\
level1-b;level2-c 1\n\
level1-b;level2-d 1\n\
level1-c;level2-e 1\n";
    let fg = parse(content, false);

    // No-op if no search pattern.
    let mut view = FlameGraphView::new(fg);
    view.to_next_search_result();
    view.to_previous_search_result();
    assert_eq!(get_selected_short_name(&view), "all");

    // Set a search pattern.
    view.set_search_pattern(
        SearchPattern::new("1-b$|2-a$|2-c$|2-e$", true, true)
            .expect("Could not create search pattern"),
    );
    assert_eq!(get_selected_short_name(&view), "all");

    // Check going to the next search result.
    view.to_next_search_result();
    assert_eq!(get_selected_short_name(&view), "level1-b");

    view.to_next_search_result();
    assert_eq!(get_selected_short_name(&view), "level2-a");

    view.to_next_search_result();
    assert_eq!(get_selected_short_name(&view), "level2-c");

    view.to_next_search_result();
    assert_eq!(get_selected_short_name(&view), "level2-e");

    view.to_next_search_result();
    assert_eq!(get_selected_short_name(&view), "level2-e");

    // Check going to the previous search result.
    view.to_previous_search_result();
    assert_eq!(get_selected_short_name(&view), "level2-c");

    view.to_previous_search_result();
    assert_eq!(get_selected_short_name(&view), "level2-a");

    view.to_previous_search_result();
    assert_eq!(get_selected_short_name(&view), "level1-b");

    view.to_previous_search_result();
    assert_eq!(get_selected_short_name(&view), "level1-b");
}

#[test]
fn test_replacement_keeps_selection_by_path() {
    let old_fg = parse("a;b 3\na;c 5\n", false);
    let mut view = FlameGraphView::new(old_fg);
    let b = get_id(&view, "a;b");
    view.select_id(&b);
    assert_eq!(
        view.flamegraph.get_stack_full_name(&view.state.selected),
        Some("a;b")
    );

    // The new tree still contains "a;b", under different indices.
    let new_fg = parse("zzz 9\nother;one 4\na;b 7\na;c 1\n", false);
    view.replace_flamegraph(new_fg);
    assert_eq!(
        view.flamegraph.get_stack_full_name(&view.state.selected),
        Some("a;b")
    );
    assert_ne!(view.state.selected, b);
}

#[test]
fn test_replacement_falls_back_to_root() {
    let old_fg = parse("a;b 3\n", false);
    let mut view = FlameGraphView::new(old_fg);
    let b = get_id(&view, "a;b");
    view.select_id(&b);

    let new_fg = parse("c;d 4\n", false);
    view.replace_flamegraph(new_fg);
    assert_eq!(view.state.selected, ROOT_ID);
}

#[test]
fn test_replacement_reapplies_search() {
    let old_fg = parse("a;b 3\n", false);
    let mut view = FlameGraphView::new(old_fg);
    view.set_search_pattern(SearchPattern::new("b", false, true).unwrap());
    assert_eq!(view.flamegraph.hit_coverage_count(), Some(3));

    let new_fg = parse("a;b 6\nb 4\n", false);
    view.replace_flamegraph(new_fg);
    // The pattern survived the swap and was re-applied to the new tree.
    assert!(view.state.search_pattern.is_some());
    assert_eq!(view.flamegraph.hit_coverage_count(), Some(10));
}

#[test]
fn test_zoom_set_and_unset() {
    let fg = parse("a;b 3\na;c 5\n", false);
    let mut view = FlameGraphView::new(fg);
    let a = get_id(&view, "a");
    view.select_id(&a);
    view.set_zoom();
    let z = view.state.zoom.as_ref().expect("zoom installed");
    assert_eq!(z.stack_id, a);
    assert!(z.is_ancestor_or_descendant(&get_id(&view, "a;b")));
    assert!(z.is_ancestor_or_descendant(&ROOT_ID));

    view.unset_zoom();
    assert!(view.state.zoom.is_none());
    assert_eq!(view.state.selected, a);
}

#[test]
fn test_zoom_to_root_is_unzoom() {
    let fg = parse("a 1\n", false);
    let mut view = FlameGraphView::new(fg);
    view.set_zoom();
    assert!(view.state.zoom.is_none());
}

#[test]
fn test_reset_is_total() {
    let fg = parse("a;b 3\na;c 5\n", false);
    let mut view = FlameGraphView::new(fg);
    view.select_id(&get_id(&view, "a;b"));
    view.set_zoom();
    view.set_search_pattern(SearchPattern::new("c", false, true).unwrap());
    view.set_frame_height(2);
    view.set_frame_width(80);
    view.state.level_offset = 1;
    view.state.table_state.selected = 2;
    view.state.table_state.offset = 1;

    view.reset();
    assert_eq!(view.state.selected, ROOT_ID);
    assert_eq!(view.state.level_offset, 0);
    assert!(view.state.zoom.is_none());
    assert!(view.state.search_pattern.is_none());
    assert_eq!(view.state.table_state.selected, 0);
    assert_eq!(view.state.table_state.offset, 0);
    assert!(view.flamegraph.hit_coverage_count().is_none());
}

#[test]
fn test_failed_manual_pattern_leaves_state_unchanged() {
    let fg = parse("a;b 3\n", false);
    let mut app = App::with_flamegraph("test-input", fg);

    // With no active pattern, a bad pattern still leaves none.
    app.set_manual_search_pattern("(", true);
    assert!(app.flamegraph_state().search_pattern.is_none());
    assert!(app.transient_message.is_some());

    // With an active manual pattern, a bad pattern leaves it untouched.
    app.set_manual_search_pattern("b", false);
    let before_hits = app.flamegraph().hit_coverage_count();
    app.set_manual_search_pattern("[", true);
    let p = app
        .flamegraph_state()
        .search_pattern
        .as_ref()
        .expect("previous pattern kept");
    assert_eq!(p.pattern, "b");
    assert!(p.is_manual);
    assert_eq!(app.flamegraph().hit_coverage_count(), before_hits);
}

#[test]
fn test_auto_pattern_follows_selection() {
    let fg = parse("work;sub 3\nwork 2\n", false);
    let mut view = FlameGraphView::new(fg);
    let w = get_id(&view, "work");
    view.select_id(&w);
    let p = view
        .state
        .search_pattern
        .as_ref()
        .expect("auto pattern installed");
    assert_eq!(p.pattern, "work");
    assert!(!p.is_manual);
    // The auto pattern is overwritten by the next selection.
    let s = get_id(&view, "work;sub");
    view.select_id(&s);
    let p2 = view.state.search_pattern.as_ref().unwrap();
    assert_eq!(p2.pattern, "sub");
}

#[test]
fn test_manual_pattern_not_overwritten_by_selection() {
    let fg = parse("work;sub 3\nwork 2\n", false);
    let mut view = FlameGraphView::new(fg);
    view.set_search_pattern(SearchPattern::new("sub", false, true).unwrap());
    let w = get_id(&view, "work");
    view.select_id(&w);
    let p = view.state.search_pattern.as_ref().unwrap();
    assert_eq!(p.pattern, "sub");
    assert!(p.is_manual);
}

#[test]
fn test_table_cursor_clamps() {
    let fg = parse("a 1\nb 2\nc 3\n", false);
    let mut view = FlameGraphView::new(fg);
    assert_eq!(view.flamegraph.ordered_stacks.num_rows, 3);
    view.to_next_row();
    view.to_next_row();
    view.to_next_row();
    view.to_next_row();
    assert_eq!(view.state.table_state.selected, 2);
    view.to_previous_row();
    assert_eq!(view.state.table_state.selected, 1);
    view.to_previous_row();
    view.to_previous_row();
    assert_eq!(view.state.table_state.selected, 0);
}

#[test]
fn test_sibling_navigation_selects() {
    let fg = simple_capture();
    let mut view = FlameGraphView::new(fg);
    let first = get_id(&view, "<module> (long_running.py:25)");
    view.select_id(&first);
    view.to_next_sibling();
    assert_eq!(
        get_selected_short_name(&view),
        "<module> (long_running.py:24)"
    );
    view.to_previous_sibling();
    assert_eq!(
        get_selected_short_name(&view),
        "<module> (long_running.py:25)"
    );
}

#[test]
fn test_to_child_picks_widest() {
    let fg = simple_capture();
    let mut view = FlameGraphView::new(fg);
    view.to_child_stack();
    assert_eq!(
        get_selected_short_name(&view),
        "<module> (long_running.py:25)"
    );
    view.to_child_stack();
    assert_eq!(get_selected_short_name(&view), "work (long_running.py:7)");
    view.to_parent_stack();
    view.to_parent_stack();
    assert_eq!(get_selected_short_name(&view), "all");
}

#[test]
fn test_num_visible_levels_with_width() {
    // Two depths; with a narrow viewport the thin subtree is invisible.
    let fg = parse("wide;deep;deeper 990\nthin 10\n", false);
    let mut view = FlameGraphView::new(fg);
    assert_eq!(view.get_num_visible_levels(), 4);
    view.set_frame_width(50);
    // thin takes 10/1000 of 50 cells: less than one cell, so only the
    // wide path's depths count (root, wide, deep, deeper).
    assert_eq!(view.get_num_visible_levels(), 4);
    let fg2 = parse("wide 990\nthin;t2;t3 10\n", false);
    let mut view2 = FlameGraphView::new(fg2);
    view2.set_frame_width(50);
    // The deep path is too thin to draw; only root and "wide" remain.
    assert_eq!(view2.get_num_visible_levels(), 2);
}
