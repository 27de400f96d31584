use vstd::prelude::*;

use crate::graph::{views, Graph};
use crate::text::{is_suffix, strip_suffix};

verus! {

/// `s` with every occurrence of `from`, scanned left to right without
/// overlap, replaced by `to`.
pub open spec fn replace_all(s: Seq<char>, from: Seq<char>, to: Seq<char>) -> Seq<char>
    recommends
        from.len() > 0,
    decreases s.len(),
{
    if from.len() == 0 || s.len() < from.len() {
        s
    } else if s.subrange(0, from.len() as int) == from {
        to + replace_all(s.subrange(from.len() as int, s.len() as int), from, to)
    } else {
        seq![s[0]] + replace_all(s.drop_first(), from, to)
    }
}

/// `s` without a final `p`.
pub open spec fn without_suffix(s: Seq<char>, p: Seq<char>) -> Seq<char> {
    if is_suffix(p, s) {
        s.subrange(0, s.len() - p.len())
    } else {
        s
    }
}

/// `s` without a final `.py`.
pub open spec fn without_py(s: Seq<char>) -> Seq<char> {
    if is_suffix(".py"@, s) {
        s.subrange(0, s.len() - 3)
    } else {
        s
    }
}

/// `i` is the first position where `p` occurs in `s`.
pub open spec fn first_occurrence(p: Seq<char>, s: Seq<char>, i: int) -> bool {
    &&& 0 <= i <= s.len() - p.len()
    &&& s.subrange(i, i + p.len()) == p
    &&& forall|k: int| 0 <= k < i ==> #[trigger] s.subrange(k, k + p.len()) != p
}

/// The module name of a file path: a trailing `/__init__.py` goes, each `/`
/// becomes `.`, a trailing `.py` goes, and where `src.` occurs, everything
/// up to its first occurrence goes with it.
pub open spec fn module_of(path: Seq<char>) -> Seq<char> {
    let dotted = replace_all(without_suffix(path, "/__init__.py"@), "/"@, "."@);
    let m = without_py(dotted);
    if exists|i: int| first_occurrence("src."@, m, i) {
        let i = choose|i: int| first_occurrence("src."@, m, i);
        m.subrange(i + 4, m.len() as int)
    } else {
        m
    }
}

/// What `serde_json` reads from `text` as a JSON object whose values are
/// lists of strings, with its keys in ascending order.
pub uninterp spec fn json_string_lists(text: Seq<char>) -> Option<Seq<(Seq<char>, Seq<Seq<char>>)>>;

/// Relies on `str::replace`: every non-overlapping occurrence of `from`,
/// left to right, replaced by `to`.
#[verifier::external_body]
fn replace(s: &str, from: &str, to: &str) -> (r: String)
    requires
        from@.len() > 0,
    ensures
        r@ == replace_all(s@, from@, to@),
{
    s.replace(from, to)
}

/// Relies on `regex::Regex::replace` with the pattern `\.py$`, which
/// matches a `.py` at the very end of the text only.
#[verifier::external_body]
fn strip_py(s: &str) -> (r: String)
    ensures
        r@ == without_py(s@),
{
    regex::Regex::new(r"\.py$").unwrap().replace(s, "").into_owned()
}

/// Relies on `str::split_once`: the text before and after the first
/// occurrence of `p`.
#[verifier::external_body]
fn split_once(s: &str, p: &str) -> (r: Option<(String, String)>)
    requires
        p@.len() > 0,
    ensures
        r is Some == exists|i: int| first_occurrence(p@, s@, i),
        r matches Some((a, b)) ==> first_occurrence(p@, s@, a@.len() as int) && b@ == s@.subrange(
            (a@.len() + p@.len()) as int,
            s@.len() as int,
        ),
{
    s.split_once(p).map(|(a, b)| (a.to_string(), b.to_string()))
}

/// Relies on `serde_json::from_str` into an ordered map from strings to
/// lists of strings; `None` where the text is no such JSON object.
#[verifier::external_body]
fn parse_string_lists(text: &str) -> (r: Option<Vec<(String, Vec<String>)>>)
    ensures
        match r {
            Some(v) => json_string_lists(text@) == Some(
                v@.map_values(|e: (String, Vec<String>)| (e.0@, views(e.1@))),
            ),
            None => json_string_lists(text@) is None,
        },
{
    serde_json::from_str::<std::collections::BTreeMap<String, Vec<String>>>(text).ok().map(
        |m| m.into_iter().collect(),
    )
}

pub proof fn lemma_first_occurrence_unique(p: Seq<char>, s: Seq<char>, i: int, j: int)
    requires
        first_occurrence(p, s, i),
        first_occurrence(p, s, j),
    ensures
        i == j,
{
}

/// The module name of a file path, as `module_of` states it.
pub fn path_to_module(path: &str) -> (r: String)
    ensures
        r@ == module_of(path@),
{
    proof {
        reveal_strlit("/__init__.py");
        reveal_strlit("/");
        reveal_strlit("src.");
        reveal_strlit("");
        reveal_strlit(".");
        assert(""@ =~= Seq::<char>::empty());
    }
    let a = match strip_suffix(path, "/__init__.py") {
        Some(t) => t,
        None => path.to_string(),
    };
    let b = replace(a.as_str(), "/", ".");
    let m = strip_py(b.as_str());
    match split_once(m.as_str(), "src.") {
        Some((before, after)) => {
            proof {
                let i = choose|i: int| first_occurrence("src."@, m@, i);
                lemma_first_occurrence_unique("src."@, m@, i, before@.len() as int);
            }
            after
        },
        None => m,
    }
}

/// The graph that the entries `e` describe, one key per entry, a later entry
/// for the same key replacing an earlier one; with `as_pkgs` every path is
/// taken to its module name first.
pub open spec fn entries_graph(e: Seq<(Seq<char>, Seq<Seq<char>>)>, as_pkgs: bool) -> Map<Seq<char>, Set<Seq<char>>>
    decreases e.len(),
{
    if e.len() == 0 {
        Map::empty()
    } else {
        let (k, vs) = e.last();
        let key = if as_pkgs {
            module_of(k)
        } else {
            k
        };
        let vals = if as_pkgs {
            vs.map_values(|v: Seq<char>| module_of(v))
        } else {
            vs
        };
        entries_graph(e.drop_last(), as_pkgs).insert(key, vals.to_set())
    }
}

/// The names of `vs` taken to module names, or kept as they are.
fn node_names(vs: &Vec<String>, as_pkgs: bool) -> (r: Vec<String>)
    ensures
        views(r@) == if as_pkgs {
            views(vs@).map_values(|v: Seq<char>| module_of(v))
        } else {
            views(vs@)
        },
{
    let mut r: Vec<String> = Vec::new();
    let mut t: usize = 0;
    while t < vs.len()
        invariant
            t <= vs.len(),
            r.len() == t,
            forall|u: int| 0 <= u < t ==> #[trigger] r[u]@ == if as_pkgs { module_of(vs[u]@) } else { vs[u]@ },
        decreases vs.len() - t,
    {
        if as_pkgs {
            r.push(path_to_module(vs[t].as_str()));
        } else {
            r.push(vs[t].clone());
        }
        t = t + 1;
    }
    proof {
        if as_pkgs {
            assert(views(r@) =~= views(vs@).map_values(|v: Seq<char>| module_of(v)));
        } else {
            assert(views(r@) =~= views(vs@));
        }
    }
    r
}

/// The graph that `entries` describe, each path with its related paths.
pub fn graph_from_entries(entries: &Vec<(String, Vec<String>)>, as_pkgs: bool) -> (g: Graph)
    ensures
        g.wf(),
        g@ == entries_graph(entries@.map_values(|x: (String, Vec<String>)| (x.0@, views(x.1@))), as_pkgs),
{
    let ghost e = entries@.map_values(|x: (String, Vec<String>)| (x.0@, views(x.1@)));
    let mut g = Graph::new();
    let mut t: usize = 0;
    while t < entries.len()
        invariant
            t <= entries.len(),
            e == entries@.map_values(|x: (String, Vec<String>)| (x.0@, views(x.1@))),
            g.wf(),
            g@ == entries_graph(e.subrange(0, t as int), as_pkgs),
        decreases entries.len() - t,
    {
        let key = if as_pkgs {
            path_to_module(entries[t].0.as_str())
        } else {
            entries[t].0.clone()
        };
        let vals = node_names(&entries[t].1, as_pkgs);
        g.insert(&key, &vals);
        proof {
            let e1 = e.subrange(0, t + 1);
            assert(e1.drop_last() =~= e.subrange(0, t as int));
            assert(e1.last() == (entries[t as int].0@, views(entries[t as int].1@)));
        }
        t = t + 1;
    }
    proof {
        assert(e.subrange(0, t as int) =~= e);
    }
    g
}

/// The graph that the analyzer's JSON output `text` describes; `None`
/// where `text` is not a JSON object whose values are lists of strings.
pub fn graph_from_json(text: &String, as_pkgs: bool) -> (r: Option<Graph>)
    ensures
        match json_string_lists(text@) {
            None => r is None,
            Some(e) => r matches Some(g) && g.wf() && g@ == entries_graph(e, as_pkgs),
        },
{
    let entries = match parse_string_lists(text.as_str()) {
        Some(v) => v,
        None => {
            return None;
        },
    };
    Some(graph_from_entries(&entries, as_pkgs))
}

/// The entries that the analyzer's JSON output `text` lists, each path with
/// its related paths; `None` where `text` is not a JSON object whose values
/// are lists of strings.
pub fn entries_from_json(text: &String) -> (r: Option<Vec<(String, Vec<String>)>>)
    ensures
        match r {
            Some(v) => json_string_lists(text@) == Some(
                v@.map_values(|e: (String, Vec<String>)| (e.0@, views(e.1@))),
            ),
            None => json_string_lists(text@) is None,
        },
{
    parse_string_lists(text.as_str())
}

} // verus!
