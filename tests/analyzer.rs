use cycle_tools::analyzer::{graph_from_entries, graph_from_json, path_to_module};
use cycle_tools::batch::{cycle_summary, edge_frequencies, minimize_cycles, top_edges};
use cycle_tools::graph::Graph;
use cycle_tools::report::{parse_cycle_report, render_cycle};

fn s(v: &[&str]) -> Vec<String> {
    v.iter().map(|x| x.to_string()).collect()
}

#[test]
fn test_path_to_module() {
    assert_eq!(path_to_module("foo/src/foo/bar.py"), "foo.bar");
    assert_eq!(path_to_module("foo/src/foo/bar/__init__.py"), "foo.bar");
    assert_eq!(path_to_module("foo/src/foo/__init__.py"), "foo");
}

#[test]
fn path_to_module_without_src() {
    assert_eq!(path_to_module("lib/mod.py"), "lib.mod");
    assert_eq!(path_to_module("lib/mod.pyc"), "lib.mod.pyc");
}

#[test]
fn graph_from_json_reads_object() {
    let g = graph_from_json(&r#"{"a.py": ["b.py"], "b.py": []}"#.to_string(), false).unwrap();
    assert!(g.has_edge(&"a.py".to_string(), &"b.py".to_string()));
    assert!(g.contains_key(&"b.py".to_string()));
    let p = graph_from_json(&r#"{"src/a.py": ["src/b/__init__.py"]}"#.to_string(), true).unwrap();
    assert!(p.has_edge(&"a".to_string(), &"b".to_string()));
}

#[test]
fn graph_from_json_rejects_other_text() {
    assert!(graph_from_json(&"[1, 2]".to_string(), false).is_none());
    assert!(graph_from_json(&"not json".to_string(), false).is_none());
}

#[test]
fn render_and_parse_round_trip() {
    let c = s(&["a", "b.c", "d"]);
    let line = render_cycle(&c);
    assert_eq!(line, "a -> b.c -> d");
    assert_eq!(parse_cycle_report(&line), vec![c]);
}

#[test]
fn parse_skips_lines_without_separator() {
    let r = parse_cycle_report("a -> b\nsummary\n\nx -> y -> z\n");
    assert_eq!(r, vec![s(&["a", "b"]), s(&["x", "y", "z"])]);
}

#[test]
fn summary_counts() {
    let cs = vec![s(&["a", "b"]), s(&["a", "b", "c"])];
    assert_eq!(cycle_summary(&cs), (2, 5, 3));
    assert_eq!(cycle_summary(&Vec::new()), (0, 0, 0));
}

#[test]
fn minimize_cycles_deduplicates() {
    let mut g = Graph::new();
    g.insert(&"b".to_string(), &s(&["a"]));
    let r = minimize_cycles(&g, &vec![s(&["a", "b", "c"]), s(&["a", "b"]), s(&["j", "k"])]);
    assert_eq!(r, vec![s(&["a", "b"]), s(&["j", "k"])]);
}

#[test]
fn edge_frequencies_count_cyclic_pairs() {
    let cs = vec![s(&["a", "b"]), s(&["a", "b", "c"]), s(&["b", "c", "d"])];
    let f = edge_frequencies(&cs);
    let count = |x: &str, y: &str| f.iter().find(|e| e.0 == x && e.1 == y).map(|e| e.2);
    assert_eq!(count("a", "b"), Some(2));
    assert_eq!(count("b", "a"), Some(1));
    assert_eq!(count("b", "c"), Some(2));
    assert_eq!(count("c", "a"), Some(1));
    assert_eq!(count("d", "b"), Some(1));
    assert_eq!(count("a", "c"), None);
    assert_eq!(f.len(), 6);
    let top = top_edges(&f, 2);
    assert_eq!(top.len(), 2);
    assert!(top.iter().all(|e| e.2 == 2));
    assert_eq!(top_edges(&f, 10).len(), 6);
    assert!(top_edges(&f, 0).is_empty());
}

#[test]
fn path_to_module_strips_only_trailing_init() {
    assert_eq!(path_to_module("x/__init__.pyz"), "x.__init__.pyz");
    assert_eq!(path_to_module("a/__init__.py/b.py"), "a.__init__.py.b");
}

#[test]
fn graph_from_entries_builds_graph() {
    let entries = vec![
        ("a".to_string(), s(&["b", "c"])),
        ("b".to_string(), s(&[])),
        ("a".to_string(), s(&["c"])),
    ];
    let g = graph_from_entries(&entries, false);
    assert!(g.has_edge(&"a".to_string(), &"c".to_string()));
    assert!(!g.has_edge(&"a".to_string(), &"b".to_string()));
    assert!(g.contains_key(&"b".to_string()));
    assert!(!g.contains_key(&"c".to_string()));
}

#[test]
fn report_round_trip_many_lines() {
    let cs = vec![s(&["a", "b"]), s(&["c", "d", "e"])];
    let text = cs.iter().map(|c| render_cycle(c)).collect::<Vec<_>>().join("\n");
    assert_eq!(parse_cycle_report(&text), cs);
}
