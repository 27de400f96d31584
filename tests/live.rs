use cycle_tools::graph::Graph;
use cycle_tools::live::{get_affected_files, LiveGraphs};
use std::collections::HashSet;

fn s(v: &[&str]) -> Vec<String> {
    v.iter().map(|x| x.to_string()).collect()
}

fn graph(entries: &[(&str, &[&str])]) -> Graph {
    let mut g = Graph::new();
    for (k, vs) in entries {
        g.insert(&k.to_string(), &s(vs));
    }
    g
}

fn set(v: Vec<String>) -> HashSet<String> {
    v.into_iter().collect()
}

#[test]
fn affected_files_follow_dependents() {
    let g = graph(&[("a", &["b"]), ("b", &["c"])]);
    let r = get_affected_files(&s(&["a"]), &g);
    assert_eq!(r.len(), 3);
    assert_eq!(set(r), set(s(&["a", "b", "c"])));
}

#[test]
fn affected_files_keep_unknown_seeds() {
    let g = graph(&[("a", &["b"])]);
    let r = get_affected_files(&s(&["z", "z", "b"]), &g);
    assert_eq!(set(r.clone()), set(s(&["z", "b"])));
    assert_eq!(r.len(), 2);
}

#[test]
fn update_adds_dependent_edge() {
    let mut lg = LiveGraphs::new(graph(&[("y", &[])]), graph(&[("x", &[])]));
    lg.update_dependencies(&"x".to_string(), &s(&["y"]));
    assert!(lg.dependents.has_edge(&"y".to_string(), &"x".to_string()));
    assert!(lg.dependencies.has_edge(&"x".to_string(), &"y".to_string()));
}

#[test]
fn update_removes_lost_edges() {
    let mut lg = LiveGraphs::new(
        graph(&[("y", &["x"]), ("z", &["x"])]),
        graph(&[("x", &["y", "z"])]),
    );
    lg.update_dependencies(&"x".to_string(), &s(&["z", "w"]));
    assert!(!lg.dependents.has_edge(&"y".to_string(), &"x".to_string()));
    assert!(lg.dependents.has_edge(&"z".to_string(), &"x".to_string()));
    assert!(lg.dependents.has_edge(&"w".to_string(), &"x".to_string()));
    assert_eq!(lg.dependencies.successors(&"x".to_string()).map(set), Some(set(s(&["z", "w"]))));
}

#[test]
fn removal_forgets_node() {
    let mut lg = LiveGraphs::new(
        graph(&[("y", &["x"]), ("x", &["q"]), ("z", &["x", "y"])]),
        graph(&[("x", &["y", "z"]), ("q", &["x"])]),
    );
    lg.remove_node(&"x".to_string());
    assert!(!lg.dependents.contains_key(&"x".to_string()));
    assert!(!lg.dependencies.contains_key(&"x".to_string()));
    for k in ["y", "z", "q"] {
        assert!(!lg.dependents.has_edge(&k.to_string(), &"x".to_string()));
    }
    assert!(lg.dependents.has_edge(&"z".to_string(), &"y".to_string()));
}

#[test]
fn relevant_paths_filter_and_strip() {
    let lg = LiveGraphs::new(graph(&[("/w/data.txt", &[])]), Graph::new());
    let paths = s(&[
        "/w/src/a.py",
        "/w/notes.md",
        "/w/ruff.toml",
        "/w/pyproject.toml",
        "/w/data.txt",
        "/elsewhere/b.py",
    ]);
    let r = lg.relevant_paths(&paths, &"/w/".to_string());
    assert_eq!(r, s(&["src/a.py", "ruff.toml", "pyproject.toml", "data.txt"]));
}

#[test]
fn handle_change_updates_then_reports_under_roots() {
    let mut lg = LiveGraphs::new(
        graph(&[("pkg/a.py", &["pkg/b.py"]), ("pkg/b.py", &["other/c.py"]), ("other/c.py", &[])]),
        graph(&[("pkg/b.py", &["pkg/a.py"]), ("other/c.py", &["pkg/b.py"])]),
    );
    let update = vec![("pkg/d.py".to_string(), s(&["pkg/a.py"]))];
    let r = lg.handle_change(&s(&["pkg/a.py"]), &update, false, &s(&["pkg/"]));
    assert_eq!(set(r), set(s(&["pkg/a.py", "pkg/b.py"])));
}

#[test]
fn handle_removal_reports_before_forgetting() {
    let mut lg = LiveGraphs::new(
        graph(&[("a", &["b"]), ("b", &[])]),
        graph(&[("b", &["a"])]),
    );
    let r = lg.handle_change(&s(&["a"]), &Vec::new(), true, &s(&[""]));
    assert_eq!(set(r), set(s(&["a", "b"])));
    assert!(!lg.dependents.contains_key(&"a".to_string()));
}
