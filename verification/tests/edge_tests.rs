use flamelens::app::App;
use flamelens::command::{self, InputKey};
use flamelens::flame::{FlameGraph, SortColumn};
use flamelens::state::ViewKind;

fn parse(content: &str, sorted: bool) -> FlameGraph {
    FlameGraph::try_from_string(String::from(content), sorted).expect("input fits u64 totals")
}

#[test]
fn test_empty_input() {
    let fg = parse("", false);
    assert_eq!(fg.total_count(), 0);
    assert_eq!(fg.stacks.len(), 1);
    assert_eq!(fg.get_num_levels(), 1);
    assert_eq!(fg.ordered_stacks.entries.len(), 0);
    assert_eq!(fg.ordered_stacks.num_rows, 0);
}

#[test]
fn test_sorted_tie_breaks_are_stable() {
    // Children with equal totals keep their creation order after the sort.
    let fg = parse("a 5\nb 5\nc 9\n", true);
    let names: Vec<&str> = fg
        .root()
        .children
        .iter()
        .map(|c| fg.get_stack(c).map(|s| s.short_name.as_str()).unwrap())
        .collect();
    assert_eq!(names, vec!["c", "a", "b"]);
}

#[test]
fn test_unsorted_keeps_creation_order() {
    let fg = parse("b 1\na 9\nc 5\n", false);
    let names: Vec<&str> = fg
        .root()
        .children
        .iter()
        .map(|c| fg.get_stack(c).map(|s| s.short_name.as_str()).unwrap())
        .collect();
    assert_eq!(names, vec!["b", "a", "c"]);
}

#[test]
fn test_table_filter_and_no_match_flag() {
    let mut fg = parse("alpha 3\nbeta 5\ngamma 2\n", false);
    let p = flamelens::pattern::SearchPattern::new("a$", true, true).unwrap();
    fg.set_hits(&p);
    // "alpha", "beta" and "gamma" all end in 'a'.
    assert_eq!(fg.ordered_stacks.num_rows, 3);
    let q = flamelens::pattern::SearchPattern::new("^zzz$", true, true).unwrap();
    fg.set_hits(&q);
    // Nothing matches: the filter is dropped and flagged.
    assert_eq!(fg.ordered_stacks.num_rows, 3);
    assert!(fg.ordered_stacks.search_pattern_ignored_because_of_no_match);
    assert!(fg.ordered_stacks.entries.iter().all(|e| e.visible));
    // An automatic pattern never filters the table.
    let auto = flamelens::pattern::SearchPattern::new("beta", false, false).unwrap();
    fg.set_hits(&auto);
    assert_eq!(fg.ordered_stacks.num_rows, 3);
    assert!(!fg.ordered_stacks.search_pattern_ignored_because_of_no_match);
}

#[test]
fn test_partial_filter_counts_visible_rows() {
    let mut fg = parse("alpha 3\nbeta 5\nbent 2\n", false);
    let p = flamelens::pattern::SearchPattern::new("^be", true, true).unwrap();
    fg.set_hits(&p);
    assert_eq!(fg.ordered_stacks.num_rows, 2);
    let visible: Vec<&str> = fg
        .ordered_stacks
        .entries
        .iter()
        .filter(|e| e.visible)
        .map(|e| e.name.as_str())
        .collect();
    assert_eq!(visible, vec!["beta", "bent"]);
}

#[test]
fn test_command_dispatch() {
    let fg = parse("a;b 3\na;c 5\n", false);
    let mut app = App::with_flamegraph("input", fg);
    assert!(app.running);

    command::handle_command(&mut app, InputKey::Tab, false);
    assert!(matches!(app.flamegraph_state().view_kind, ViewKind::Table));
    command::handle_command(&mut app, InputKey::Tab, false);
    assert!(matches!(
        app.flamegraph_state().view_kind,
        ViewKind::FlameGraph
    ));

    command::handle_command(&mut app, InputKey::Char('z'), false);
    assert!(app.flamegraph_state().freeze);

    command::handle_command(&mut app, InputKey::Down, false);
    assert_eq!(
        app.flamegraph()
            .get_stack_short_name(&app.flamegraph_state().selected),
        Some("a")
    );

    command::handle_command(&mut app, InputKey::Char('/'), false);
    assert!(app.input_active);
    command::handle_search_input_submit(&mut app, "b$");
    assert!(!app.input_active);
    let p = app.flamegraph_state().search_pattern.as_ref().unwrap();
    assert!(p.is_manual && p.is_regex);
    assert_eq!(p.pattern, "b$");

    command::handle_search_input_submit(&mut app, "");
    assert!(app.flamegraph_state().search_pattern.is_none());

    command::handle_command(&mut app, InputKey::Char('q'), false);
    assert!(!app.running);
}

#[test]
fn test_table_sort_after_filter_keeps_num_rows() {
    let mut fg = parse("alpha 3\nbeta 5\nbent 2\n", false);
    let p = flamelens::pattern::SearchPattern::new("^be", true, true).unwrap();
    fg.set_hits(&p);
    assert_eq!(fg.ordered_stacks.num_rows, 2);
    fg.ordered_stacks.set_sort_column(SortColumn::Total);
    assert_eq!(fg.ordered_stacks.num_rows, 2);
    assert!(matches!(fg.ordered_stacks.sorted_column, SortColumn::Total));
}

#[test]
fn test_frames_with_spaces_and_last_space_split() {
    let fg = parse("spaced name;inner frame 7\n", false);
    assert_eq!(fg.total_count(), 7);
    assert!(fg.get_stack_by_full_name("spaced name").is_some());
    assert!(fg
        .get_stack_by_full_name("spaced name;inner frame")
        .is_some());
}

#[test]
fn test_plus_prefixed_count_accepted() {
    let fg = parse("a +3\n", false);
    assert_eq!(fg.total_count(), 3);
}
