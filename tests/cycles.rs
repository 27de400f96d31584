use cycle_tools::cycle::{canonical_cycle, cycle_size, minimize_cycle, sub_cycle};
use cycle_tools::detect::{detect_cycles_in_graph, get_cycles_from_vertex};
use cycle_tools::graph::Graph;
use std::collections::HashSet;

fn s(v: &[&str]) -> Vec<String> {
    v.iter().map(|x| x.to_string()).collect()
}

fn graph(entries: &[(&str, &[&str])]) -> Graph {
    let mut g = Graph::new();
    for (k, vs) in entries {
        g.insert(&k.to_string(), &s(vs));
    }
    g
}

fn as_set(cs: Vec<Vec<String>>) -> HashSet<Vec<String>> {
    cs.into_iter().collect()
}

#[test]
fn test_detect_cycles_simple() {
    let g = graph(&[("a", &["b"]), ("b", &["c"]), ("c", &["d"]), ("c", &["a"])]);
    let expected: HashSet<Vec<String>> = [s(&["a", "b", "c"])].into_iter().collect();
    assert_eq!(as_set(detect_cycles_in_graph(&g)), expected);
}

#[test]
fn test_detect_cycles_complex() {
    let g = graph(&[
        ("a", &["b", "j", "k", "n", "q", "r"]),
        ("b", &["a"]),
        ("j", &["a", "k", "l"]),
        ("k", &["j"]),
        ("l", &["a"]),
        ("n", &["l"]),
    ]);
    let expected: HashSet<Vec<String>> =
        [s(&["a", "n", "l"]), s(&["j", "k"]), s(&["a", "b"])].into_iter().collect();
    let found = as_set(detect_cycles_in_graph(&g));
    assert_eq!(expected.difference(&found).count(), 0);
}

#[test]
fn test_cycle_size() {
    assert_eq!(cycle_size(10, 9, 0), 10);
    assert_eq!(cycle_size(10, 2, 5), 8);
    assert_eq!(cycle_size(10, 0, 9), 2);
    assert_eq!(cycle_size(10, 5, 2), 4);
    assert_eq!(cycle_size(10, 5, 4), 2);
    assert_eq!(cycle_size(10, 3, 3), 1);
}

#[test]
fn test_canonical_cycle() {
    assert_eq!(canonical_cycle(&s(&["a", "b"])), s(&["a", "b"]));
    assert_eq!(canonical_cycle(&s(&["b", "a"])), s(&["a", "b"]));
    assert_eq!(canonical_cycle(&s(&["b", "c", "a"])), s(&["a", "b", "c"]));
    assert_eq!(
        canonical_cycle(&s(&["b", "c", "q", "a", "d"])),
        s(&["a", "d", "b", "c", "q"])
    );
}

#[test]
fn test_sub_cycle() {
    assert_eq!(sub_cycle(&s(&["a", "b", "c"]), 2, 0), s(&["a", "b", "c"]));
    assert_eq!(sub_cycle(&s(&["b", "c", "a"]), 2, 0), s(&["a", "b", "c"]));
    assert_eq!(sub_cycle(&s(&["a", "b", "c"]), 1, 0), s(&["a", "b"]));
    assert_eq!(
        sub_cycle(&s(&["b", "c", "e", "a", "d"]), 2, 4),
        s(&["b", "c", "e", "d"])
    );
    assert_eq!(
        sub_cycle(&s(&["b", "a", "c", "e", "d"]), 1, 3),
        s(&["a", "e", "d", "b"])
    );
    assert_eq!(sub_cycle(&s(&["b", "c", "a"]), 2, 1), s(&["a", "c"]));
}

#[test]
fn test_minimize_cycle_simple() {
    let g = graph(&[("b", &["a"])]);
    assert_eq!(minimize_cycle(&g, s(&["j", "k", "l"])), s(&["j", "k", "l"]));
    assert_eq!(minimize_cycle(&g, s(&["a", "j", "b"])), s(&["a", "j", "b"]));
    assert_eq!(minimize_cycle(&g, s(&["a", "b", "c"])), s(&["a", "b"]));
    assert_eq!(
        minimize_cycle(&g, s(&["b", "c", "e", "a", "d"])),
        s(&["a", "d", "b"])
    );
    assert_eq!(minimize_cycle(&g, s(&["c", "a", "b", "d"])), s(&["a", "b"]));
}

#[test]
fn test_minimize_cycle_complex() {
    let g = graph(&[
        ("a", &[]),
        ("b", &["a"]),
        ("j", &["a", "l"]),
        ("k", &["j"]),
        ("n", &["l"]),
    ]);
    assert_eq!(
        minimize_cycle(&g, s(&["a", "j", "k", "b", "l"])),
        s(&["a", "j"])
    );
    assert_eq!(
        minimize_cycle(&g, s(&["a", "k", "m", "n", "b1", "b2", "l"])),
        s(&["a", "k", "m", "n", "l"])
    );
    assert_eq!(
        minimize_cycle(&g, s(&["q", "d", "l", "r", "j", "a", "b"])),
        s(&["a", "b"])
    );
    assert_eq!(
        minimize_cycle(&g, s(&["q", "d", "l", "j", "a", "r", "b"])),
        s(&["j", "l"])
    );
    assert_eq!(
        minimize_cycle(&g, s(&["a", "q", "b", "l", "l1", "l2", "j"])),
        s(&["a", "q", "b"])
    );
    assert_eq!(
        minimize_cycle(&g, s(&["a", "q1", "q", "b", "l", "l1", "j"])),
        s(&["j", "l", "l1"])
    );
}

#[test]
fn detected_cycles_follow_edges() {
    let g = graph(&[
        ("a", &["b", "j", "k", "n", "q", "r"]),
        ("b", &["a"]),
        ("j", &["a", "k", "l"]),
        ("k", &["j"]),
        ("l", &["a"]),
        ("n", &["l"]),
    ]);
    for c in detect_cycles_in_graph(&g) {
        for i in 0..c.len() {
            assert!(g.has_edge(&c[i], &c[(i + 1) % c.len()]));
        }
    }
}

#[test]
fn cycles_from_one_vertex() {
    let g = graph(&[("a", &["b"]), ("b", &["a"])]);
    assert_eq!(get_cycles_from_vertex(&g, &"a".to_string()), vec![s(&["a", "b"])]);
    assert!(get_cycles_from_vertex(&g, &"z".to_string()).is_empty());
}

#[test]
fn acyclic_graph_has_no_cycles() {
    let g = graph(&[("a", &["b"]), ("b", &["c"])]);
    assert!(detect_cycles_in_graph(&g).is_empty());
    assert!(detect_cycles_in_graph(&Graph::new()).is_empty());
}

#[test]
fn canonical_form_is_idempotent_and_rotation_invariant() {
    let c = s(&["q", "d", "a", "x"]);
    let once = canonical_cycle(&c);
    assert_eq!(canonical_cycle(&once), once);
    for k in 0..c.len() {
        let mut r = c[k..].to_vec();
        r.extend_from_slice(&c[..k]);
        assert_eq!(canonical_cycle(&r), once);
    }
}

#[test]
fn canonical_ties_take_first_occurrence() {
    assert_eq!(canonical_cycle(&s(&["b", "a", "c", "a"])), s(&["a", "c", "a", "b"]));
}

#[test]
fn minimization_never_lengthens_and_stays_valid() {
    let g = graph(&[("a", &["b", "c"]), ("b", &["c"]), ("c", &["a"])]);
    let c = s(&["a", "b", "c"]);
    let m = minimize_cycle(&g, c.clone());
    assert!(m.len() <= c.len());
    assert_eq!(m, s(&["a", "c"]));
    for i in 0..m.len() {
        assert!(g.has_edge(&m[i], &m[(i + 1) % m.len()]));
    }
}

#[test]
fn minimize_shortcut_scenario() {
    let g = graph(&[("b", &["a"])]);
    assert_eq!(minimize_cycle(&g, s(&["a", "b", "c"])), s(&["a", "b"]));
}

#[test]
fn single_vertex_search_finds_at_most_one_cycle() {
    let g = graph(&[
        ("a", &["b", "j", "k", "n", "q", "r"]),
        ("b", &["a"]),
        ("j", &["a", "k", "l"]),
        ("k", &["j"]),
        ("l", &["a"]),
        ("n", &["l"]),
    ]);
    for v in ["a", "b", "j", "k", "l", "n"] {
        let r = get_cycles_from_vertex(&g, &v.to_string());
        assert_eq!(r.len(), 1);
        let c = &r[0];
        let distinct: HashSet<&String> = c.iter().collect();
        assert_eq!(distinct.len(), c.len());
    }
    assert!(get_cycles_from_vertex(&g, &"q".to_string()).is_empty());
}
