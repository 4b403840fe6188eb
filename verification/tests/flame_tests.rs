use flamelens::flame::{FlameGraph, SortColumn};
use flamelens::pattern::SearchPattern;

fn parse(content: &str, sorted: bool) -> FlameGraph {
    FlameGraph::try_from_string(String::from(content), sorted).expect("input fits u64 totals")
}

fn id_of(fg: &FlameGraph, full_name: &str) -> usize {
    fg.get_stack_id_by_full_name(full_name)
        .unwrap_or_else(|| panic!("no stack named {}", full_name))
}

#[test]
fn test_simple() {
    // The original exercises a py-spy capture with 657 samples in total;
    // the same shape is rebuilt here inline.
    let content = "\
<module> (long_running.py:25);work (long_running.py:7) 280\n\
<module> (long_running.py:25) 20\n\
<module> (long_running.py:24);quick_work (long_running.py:17) 200\n\
<module> (long_running.py:24) 10\n\
<process> 147\n";
    let fg = parse(content, true);
    assert_eq!(fg.total_count(), 657);
    let root = fg.root();
    assert_eq!(root.id, 0);
    assert_eq!(root.total_count, 657);
    assert_eq!(root.self_count, 0);
    assert_eq!(root.parent, None);
    assert_eq!(root.level, 0);
    assert!(!root.hit);
    // Children are ordered by descending total count.
    let kids: Vec<u64> = root
        .children
        .iter()
        .map(|c| fg.get_stack(c).unwrap().total_count)
        .collect();
    assert_eq!(kids, vec![300, 210, 147]);
    assert_eq!(fg.width_factor_fraction(0), (657, 657));
}

#[test]
fn test_no_name_count() {
    // Lines that do not split into `<path> <uint>` on the last space, or
    // with an empty path, are skipped silently.
    let content = "\
good;path 400\n\
noCountHere\n\
 28\n\
bad;count xyz\n\
also bad -5\n\
spaced name;leaf 28\n";
    let fg = parse(content, true);
    assert_eq!(fg.total_count(), 428);
}

#[test]
fn test_ignore_lines_starting_with_hash() {
    let content = "\
# a metadata line 42\n\
a;b 3\n\
#another 7\n\
a 2\n";
    let fg = parse(content, true);
    assert_eq!(fg.total_count(), 5);
    assert!(fg.get_stack_by_full_name("# a metadata line").is_none());
}

#[test]
fn test_recursive() {
    let content = "a;b;a 3\na;b 2\na 1\n";
    let fg = parse(content, true);
    assert_eq!(fg.total_count(), 6);
    let a = fg.get_stack(&id_of(&fg, "a")).unwrap();
    assert_eq!(a.total_count, 6);
    assert_eq!(a.self_count, 1);
    let b = fg.get_stack(&id_of(&fg, "a;b")).unwrap();
    assert_eq!(b.total_count, 5);
    assert_eq!(b.self_count, 2);
    let inner = fg.get_stack(&id_of(&fg, "a;b;a")).unwrap();
    assert_eq!(inner.total_count, 3);
    assert_eq!(inner.self_count, 3);
}

#[test]
fn test_example_counts_and_widths() {
    // The worked example: totals, self counts and width fractions.
    let fg = parse("a;b 3\na;c 5\na 2", false);
    assert_eq!(fg.total_count(), 10);
    let a = fg.get_stack(&id_of(&fg, "a")).unwrap();
    assert_eq!(a.total_count, 10);
    assert_eq!(a.self_count, 2);
    let b = fg.get_stack(&id_of(&fg, "a;b")).unwrap();
    assert_eq!(b.total_count, 3);
    assert_eq!(b.self_count, 3);
    let c = fg.get_stack(&id_of(&fg, "a;c")).unwrap();
    assert_eq!(c.total_count, 5);
    assert_eq!(c.self_count, 5);
    // width_factor("a;b") = 3/10 and width_factor("a;c") = 5/10, exactly.
    assert_eq!(fg.width_factor_fraction(id_of(&fg, "a;b")), (3, 10));
    assert_eq!(fg.width_factor_fraction(id_of(&fg, "a;c")), (5, 10));
    assert_eq!(fg.width_factor_fraction(id_of(&fg, "a")), (10, 10));
}

#[test]
fn test_missing_trailing_newline_tolerated() {
    let with_nl = parse("a;b 3\na 2\n", true);
    let without_nl = parse("a;b 3\na 2", true);
    assert_eq!(with_nl.total_count(), without_nl.total_count());
    assert_eq!(with_nl.stacks.len(), without_nl.stacks.len());
}

#[test]
fn test_parse_idempotence() {
    let content = "x;y 4\nx;z 6\nw 1\nx 2\n";
    for sorted in [false, true] {
        let one = parse(content, sorted);
        let two = parse(content, sorted);
        assert_eq!(one.stacks.len(), two.stacks.len());
        for i in 0..one.stacks.len() {
            let a = &one.stacks[i];
            let b = &two.stacks[i];
            assert_eq!(a.id, b.id);
            assert_eq!(a.short_name, b.short_name);
            assert_eq!(a.full_name, b.full_name);
            assert_eq!(a.total_count, b.total_count);
            assert_eq!(a.self_count, b.self_count);
            assert_eq!(a.parent, b.parent);
            assert_eq!(a.children, b.children);
            assert_eq!(a.level, b.level);
        }
        assert_eq!(one.levels, two.levels);
        assert_eq!(
            one.ordered_stacks.entries.len(),
            two.ordered_stacks.entries.len()
        );
        for i in 0..one.ordered_stacks.entries.len() {
            assert_eq!(
                one.ordered_stacks.entries[i].name,
                two.ordered_stacks.entries[i].name
            );
        }
    }
}

#[test]
fn test_count_conservation() {
    let fg = parse("a;b 3\na;c 5\na 2\nd;e;f 7\n", true);
    for stack in &fg.stacks {
        let child_sum: u64 = stack
            .children
            .iter()
            .map(|c| fg.get_stack(c).unwrap().total_count)
            .sum();
        assert_eq!(stack.total_count, stack.self_count + child_sum);
    }
}

#[test]
fn test_ordered_table_initial_ranking() {
    // The table starts ranked by own count, descending, ties by name.
    let fg = parse("a;b 3\na;c 5\na 2", false);
    let names: Vec<&str> = fg
        .ordered_stacks
        .entries
        .iter()
        .map(|e| e.name.as_str())
        .collect();
    assert_eq!(names, vec!["c", "b", "a"]);
    assert_eq!(fg.ordered_stacks.num_rows, 3);
    assert!(matches!(fg.ordered_stacks.sorted_column, SortColumn::Own));
    // "a" recurs on every line but each line contributes once to its total.
    let a_entry = &fg.ordered_stacks.entries[2];
    assert_eq!(a_entry.count.total, 10);
    assert_eq!(a_entry.count.own, 2);
}

#[test]
fn test_ordered_table_sort_toggle() {
    let mut fg = parse("a;b 3\na;c 5\na 2", false);
    fg.ordered_stacks.set_sort_column(SortColumn::Total);
    let names: Vec<&str> = fg
        .ordered_stacks
        .entries
        .iter()
        .map(|e| e.name.as_str())
        .collect();
    assert_eq!(names, vec!["a", "c", "b"]);
    assert!(matches!(fg.ordered_stacks.sorted_column, SortColumn::Total));
}

#[test]
fn test_search_pattern_compile_results() {
    assert!(SearchPattern::new("(", true, true).is_err());
    assert!(SearchPattern::new("a.*b", true, true).is_ok());
    // A non-regex pattern is escaped, so metacharacters are accepted.
    assert!(SearchPattern::new("(", false, true).is_ok());
}

#[test]
fn test_exact_pattern_matches_whole_name_only() {
    // Exercises the escape + anchoring path: the pattern "a.c" as an exact
    // search must match only the literal name "a.c", not "abc".
    let mut fg = parse("abc 3\na.c 5\nliteral 1", false);
    let p = SearchPattern::new("a.c", false, true).expect("exact pattern compiles");
    fg.set_hits(&p);
    let abc = fg.get_stack(&id_of(&fg, "abc")).unwrap();
    let adotc = fg.get_stack(&id_of(&fg, "a.c")).unwrap();
    assert!(!abc.hit);
    assert!(adotc.hit);
    assert_eq!(fg.hit_coverage_count(), Some(5));
    // As a regex, "a.c" matches both names.
    let p2 = SearchPattern::new("a.c", true, true).expect("regex compiles");
    fg.set_hits(&p2);
    assert_eq!(fg.hit_coverage_count(), Some(8));
    fg.clear_hits();
    assert_eq!(fg.hit_coverage_count(), None);
    assert!(fg.hit_ids().is_none());
}

#[test]
fn test_coverage_does_not_double_count() {
    // "work" appears on the path of every line; a hit and a hit descendant
    // must count once.
    let mut fg = parse("work;work 6\nwork 4", false);
    let p = SearchPattern::new("work", false, true).expect("pattern compiles");
    fg.set_hits(&p);
    // Both nodes are hits; the outer total is 10 and the nested node
    // contributes nothing extra.
    assert_eq!(fg.hit_coverage_count(), Some(10));
}

#[test]
fn test_coverage_of_root_only_hit() {
    // The root's raw name is empty, so the exact empty pattern marks only
    // the root; coverage is then the whole profile.
    let mut fg = parse("a;b 3\nc 7", false);
    let p = SearchPattern::new("", false, true).expect("empty pattern compiles");
    fg.set_hits(&p);
    let root = fg.root();
    assert!(root.hit);
    assert_eq!(fg.hit_coverage_count(), Some(10));
}

#[test]
fn test_hit_ids_in_level_order() {
    let mut fg = parse("a;b 1\nc;b 2\nb 4", false);
    let p = SearchPattern::new("b", false, true).expect("pattern compiles");
    fg.set_hits(&p);
    let ids = fg.hit_ids().expect("hits recorded").clone();
    // "b" as a top-level frame comes first (depth 1), then the two deeper
    // ones in row order.
    let names: Vec<String> = ids
        .iter()
        .map(|i| fg.get_stack_full_name(i).unwrap().to_string())
        .collect();
    assert_eq!(names, vec!["b", "a;b", "c;b"]);
}

#[test]
fn test_get_ancestors_and_descendants() {
    let fg = parse("a;b;c 1\na;d 2", false);
    let c = id_of(&fg, "a;b;c");
    let chain = fg.get_ancestors(&c);
    let chain_names: Vec<String> = chain
        .iter()
        .map(|i| fg.get_stack_full_name(i).unwrap().to_string())
        .collect();
    assert_eq!(chain_names, vec!["a;b;c", "a;b", "a", "all"]);
    let a = id_of(&fg, "a");
    let mut desc = fg.get_descendants(&a);
    desc.sort();
    assert_eq!(desc.len(), 4);
    assert!(desc.contains(&id_of(&fg, "a;d")));
    assert!(!desc.contains(&0));
}

#[test]
fn test_zero_count_lines_accepted() {
    let fg = parse("a 0\nb 3", false);
    assert_eq!(fg.total_count(), 3);
    assert!(fg.get_stack_by_full_name("a").is_some());
}

#[test]
fn test_count_overflow_rejected() {
    let fg = FlameGraph::try_from_string(
        String::from("a 18446744073709551615\nb 1\n"),
        false,
    );
    assert!(fg.is_none());
    let ok = FlameGraph::try_from_string(String::from("a 18446744073709551615\n"), false);
    assert!(ok.is_some());
}
