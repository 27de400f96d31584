use vstd::prelude::*;

use crate::cycle::{
    canonical, canonical_cycle, lemma_canonical_idempotent, lemma_canonical_valid,
    lemma_minimized_valid, minimize_cycle, minimized, rot_idx, step_ok, valid_cycle,
};
use crate::graph::{copy_ids, has_edge_in, views, Graph};
use crate::live::is_walk;

verus! {

/// The number of `false` entries of `v`.
pub open spec fn count_false(v: Seq<bool>) -> nat
    decreases v.len(),
{
    if v.len() == 0 {
        0
    } else {
        count_false(v.drop_last()) + if v.last() {
            0nat
        } else {
            1nat
        }
    }
}

pub(crate) proof fn lemma_count_false_mark(v: Seq<bool>, i: int)
    requires
        0 <= i < v.len(),
        !v[i],
    ensures
        count_false(v) >= 1,
        count_false(v.update(i, true)) == count_false(v) - 1,
    decreases v.len(),
{
    let w = v.update(i, true);
    if i == v.len() - 1 {
        assert(w.drop_last() =~= v.drop_last());
    } else {
        lemma_count_false_mark(v.drop_last(), i);
        assert(w.drop_last() =~= v.drop_last().update(i, true));
    }
}

/// The result is a valid cycle of `g` in canonical form.
pub open spec fn found_cycle(g: Map<Seq<char>, Set<Seq<char>>>, c: Seq<Seq<char>>) -> bool {
    &&& c.len() > 0
    &&& valid_cycle(g, c)
    &&& canonical(c) == c
    &&& c.no_duplicates()
}

/// Every entry of `cs` is a found cycle of `g`, and no two are equal.
pub open spec fn cycle_set(g: Map<Seq<char>, Set<Seq<char>>>, cs: Seq<Vec<String>>) -> bool {
    &&& forall|t: int| 0 <= t < cs.len() ==> found_cycle(g, views(#[trigger] cs[t]@))
    &&& forall|a: int, b: int| 0 <= a < cs.len() && 0 <= b < cs.len() && a != b ==> views(cs[a]@) != views(cs[b]@)
}

/// A stack entry of the search: a path of edges, whose last node has an edge
/// to `x`.
pub open spec fn path_ok(graph: Graph, p: Seq<usize>, x: usize) -> bool {
    &&& x < graph.names.len()
    &&& forall|t: int| 0 <= t < p.len() ==> p[t] < graph.names.len()
    &&& forall|t: int| 0 <= t < p.len() - 1 ==> #[trigger] graph.id_edge(p[t] as int, p[t + 1] as int)
    &&& p.len() > 0 ==> graph.id_edge(p.last() as int, x as int)
}

pub(crate) fn same_cycle(a: &Vec<String>, b: &Vec<String>) -> (r: bool)
    ensures
        r == (views(a@) == views(b@)),
{
    if a.len() != b.len() {
        return false;
    }
    let mut k: usize = 0;
    while k < a.len()
        invariant
            a.len() == b.len(),
            k <= a.len(),
            forall|t: int| 0 <= t < k ==> a[t]@ == b[t]@,
        decreases a.len() - k,
    {
        if a[k] != b[k] {
            assert(views(a@)[k as int] != views(b@)[k as int]);
            return false;
        }
        k = k + 1;
    }
    assert(views(a@) =~= views(b@));
    true
}

/// Adds `c` to `cs` unless an equal cycle is there.
fn add_cycle(cs: &mut Vec<Vec<String>>, c: Vec<String>, g: Ghost<Map<Seq<char>, Set<Seq<char>>>>)
    requires
        cycle_set(g@, old(cs)@),
        found_cycle(g@, views(c@)),
    ensures
        cycle_set(g@, final(cs)@),
        forall|t: int| 0 <= t < old(cs).len() ==> final(cs)[t] == old(cs)[t],
        old(cs).len() <= final(cs).len() <= old(cs).len() + 1,
        exists|t: int| 0 <= t < final(cs).len() && views(final(cs)[t]@) == views(c@),
        forall|t: int| 0 <= t < final(cs).len() ==> (exists|u: int| 0 <= u < old(cs).len() && final(cs)[t] == old(cs)[u]) || final(cs)[t] == c,
{
    let mut k: usize = 0;
    while k < cs.len()
        invariant
            k <= cs.len(),
            cs@ == old(cs)@,
            cycle_set(g@, cs@),
            found_cycle(g@, views(c@)),
            forall|t: int| 0 <= t < k ==> views(cs[t]@) != views(c@),
        decreases cs.len() - k,
    {
        if same_cycle(&cs[k], &c) {
            return;
        }
        k = k + 1;
    }
    cs.push(c);
    proof {
        assert(views(cs[cs.len() - 1]@) == views(c@));
    }
}

/// The first position of `x` in `p`.
fn position(p: &Vec<usize>, x: usize) -> (r: Option<usize>)
    ensures
        match r {
            Some(k) => k < p.len() && p[k as int] == x,
            None => !p@.contains(x),
        },
{
    let mut k: usize = 0;
    while k < p.len()
        invariant
            k <= p.len(),
            forall|t: int| 0 <= t < k ==> p[t] != x,
        decreases p.len() - k,
    {
        if p[k] == x {
            return Some(k);
        }
        k = k + 1;
    }
    None
}

/// The names of the nodes `p[k..]`.
fn names_from(graph: &Graph, p: &Vec<usize>, k: usize) -> (r: Vec<String>)
    requires
        graph.wf(),
        k <= p.len(),
        forall|t: int| 0 <= t < p.len() ==> p[t] < graph.names.len(),
    ensures
        r.len() == p.len() - k,
        forall|t: int| 0 <= t < r.len() ==> r[t]@ == graph.names[p[k + t] as int]@,
{
    let mut r: Vec<String> = Vec::new();
    let mut t: usize = k;
    while t < p.len()
        invariant
            graph.wf(),
            k <= t <= p.len(),
            forall|u: int| 0 <= u < p.len() ==> p[u] < graph.names.len(),
            r.len() == t - k,
            forall|u: int| 0 <= u < r.len() ==> r[u]@ == graph.names[p[k + u] as int]@,
        decreases p.len() - t,
    {
        r.push(graph.names[p[t]].clone());
        t = t + 1;
    }
    r
}

/// The list of `n` entries `false`.
pub(crate) fn all_false(n: usize) -> (r: Vec<bool>)
    ensures
        r.len() == n,
        forall|t: int| 0 <= t < n ==> !r[t],
{
    let mut r: Vec<bool> = Vec::new();
    while r.len() < n
        invariant
            r.len() <= n,
            forall|t: int| 0 <= t < r.len() ==> !r[t],
        decreases n - r.len(),
    {
        r.push(false);
    }
    r
}

/// `a` comes back to itself by a walk of one or more edges of `g`.
pub open spec fn reaches_self(g: Map<Seq<char>, Set<Seq<char>>>, a: Seq<char>) -> bool {
    exists|p: Seq<Seq<char>>| is_walk(g, p) && p.len() >= 2 && p[0] == a && p.last() == a
}

/// `c` is what the search makes of a cycle through `a`: a valid cycle of
/// distinct nodes that starts at `a`, canonicalized and then minimized.
#[verifier::opaque]
pub open spec fn search_candidate(g: Map<Seq<char>, Set<Seq<char>>>, a: Seq<char>, c: Seq<Seq<char>>) -> bool {
    exists|p: Seq<Seq<char>>|
        p.len() > 0 && p[0] == a && p.no_duplicates() && valid_cycle(g, p) && c == minimized(g, canonical(p))
}

/// A stack entry of the search from `v`: its path starts at `v`, holds
/// distinct nodes, and every node of it after `v` is scheduled; its node,
/// unless it is `v`, is scheduled and not on the path.
pub open spec fn entry_ok(graph: Graph, visited: Seq<bool>, v: usize, e: (Vec<usize>, usize)) -> bool {
    &&& path_ok(graph, e.0@, e.1)
    &&& e.0@.no_duplicates()
    &&& e.0.len() > 0 ==> e.0[0] == v
    &&& e.0.len() == 0 ==> e.1 == v
    &&& forall|t: int| 1 <= t < e.0.len() ==> e.0[t] != v && visited[#[trigger] e.0[t] as int]
    &&& e.1 != v ==> visited[e.1 as int] && !e.0@.contains(e.1)
}

/// A stack entry that leads back to `v`.
pub open spec fn closing(e: (Vec<usize>, usize), v: usize) -> bool {
    e.1 == v && e.0.len() > 0
}

/// The invariant of the search from `v`.
pub open spec fn search_inv(
    graph: Graph,
    v: usize,
    visited: Seq<bool>,
    stack: Seq<(Vec<usize>, usize)>,
    res: Option<Vec<String>>,
    began: bool,
) -> bool {
    &&& visited.len() == graph.names.len()
    &&& forall|a: int| 0 <= a < stack.len() ==> entry_ok(graph, visited, v, #[trigger] stack[a])
    &&& forall|a: int, b: int|
        0 <= a < stack.len() && 0 <= b < stack.len() && closing(#[trigger] stack[a], v) && closing(#[trigger] stack[b], v) ==> a == b
    &&& forall|a: int| 0 <= a < stack.len() && closing(#[trigger] stack[a], v) ==> visited[v as int] && res is None
    &&& res is Some ==> visited[v as int]
    &&& visited[v as int] ==> res is Some || exists|a: int| 0 <= a < stack.len() && closing(#[trigger] stack[a], v)
    &&& forall|a: int| 0 <= a < stack.len() && (#[trigger] stack[a]).0.len() == 0 ==> !began
    &&& !began ==> stack.len() == 1 && stack[0].0.len() == 0 && res is None && forall|i: int| 0 <= i < visited.len() ==> !visited[i]
    &&& res matches Some(c) ==> found_cycle(graph@, views(c@)) && views(c@).no_duplicates() && reaches_self(graph@, graph.names[v as int]@)
        && search_candidate(graph@, graph.names[v as int]@, views(c@))
}

/// The cycle that a depth-first search from node `v` finds, canonicalized
/// and minimized. Only `v` itself can close a cycle, since every other node
/// is scheduled once, so there is at most one.
fn cycle_from_id(graph: &Graph, v: usize) -> (r: Option<Vec<String>>)
    requires
        graph.wf(),
        v < graph.names.len(),
    ensures
        r is Some <==> reaches_self(graph@, graph.names[v as int]@),
        r matches Some(c) ==> found_cycle(graph@, views(c@)) && search_candidate(graph@, graph.names[v as int]@, views(c@)),
{
    let n = graph.names.len();
    let mut visited = all_false(n);
    let mut stack: Vec<(Vec<usize>, usize)> = Vec::new();
    let mut res: Option<Vec<String>> = None;
    let ghost mut began = false;
    stack.push((Vec::new(), v));
    while stack.len() > 0
        invariant
            graph.wf(),
            v < n,
            n == graph.names.len(),
            search_inv(*graph, v, visited@, stack@, res, began),
            began ==> forall|y: int| #[trigger] graph.id_edge(v as int, y) ==> visited[y],
            forall|i: int, y: int|
                0 <= i < n && visited[i] && #[trigger] graph.id_edge(i, y) && !visited[y] ==> exists|a: int|
                    0 <= a < stack.len() && (#[trigger] stack[a]).1 == i,
        decreases 2 * count_false(visited@) + stack.len(),
    {
        let ghost m0 = 2 * count_false(visited@) + stack.len();
        let ghost stack0 = stack@;
        let (path, x) = match stack.pop() {
            Some(e) => e,
            None => {
                return res;
            },
        };
        proof {
            assert(stack0[stack0.len() - 1] == (path, x));
            assert(entry_ok(*graph, visited@, v, (path, x)));
            assert forall|a: int| 0 <= a < stack.len() implies stack[a] == stack0[a] by {}
        }
        match position(&path, x) {
            Some(k) => {
                proof {
                    assert(x == v);
                    assert(k == 0) by {
                        if k != 0 {
                            assert(path[k as int] != v);
                        }
                    }
                    assert(closing(stack0[stack0.len() - 1], v));
                    assert(began);
                }
                let raw = names_from(graph, &path, k);
                proof {
                    let rv = views(raw@);
                    let l = rv.len() as int;
                    assert forall|t: int| 0 <= t < l implies #[trigger] step_ok(graph@, rv, t) by {
                        if t < l - 1 {
                            assert(graph.id_edge(path[k + t] as int, path[k + t + 1] as int));
                            graph.lemma_id_edge(path[k + t] as int, path[k + t + 1] as int);
                        } else {
                            graph.lemma_id_edge(path[k + t] as int, x as int);
                        }
                    }
                    assert forall|a: int, b: int| 0 <= a < l && 0 <= b < l && a != b implies rv[a] != rv[b] by {
                        assert(path[a] != path[b]);
                    }
                    let w = rv.push(graph.names[v as int]@);
                    assert forall|t: int| 0 <= t < w.len() - 1 implies has_edge_in(graph@, #[trigger] w[t], w[t + 1]) by {
                        assert(step_ok(graph@, rv, t));
                        if t < l - 1 {
                            assert(w[t] == rv[t] && w[t + 1] == rv[t + 1]);
                        } else {
                            assert(w[t] == rv[t] && w[t + 1] == rv[0]);
                        }
                    }
                    assert(is_walk(graph@, w) && w.len() >= 2 && w[0] == graph.names[v as int]@ && w.last() == graph.names[v as int]@);
                    lemma_canonical_valid(graph@, rv);
                    lemma_canonical_idempotent(rv);
                    crate::cycle::lemma_canonical_distinct(rv);
                }
                let c = canonical_cycle(&raw);
                proof {
                    lemma_minimized_valid(graph@, views(c@));
                    crate::cycle::lemma_minimized_canonical(graph@, views(c@));
                    crate::cycle::lemma_minimized_distinct(graph@, views(c@));
                    crate::cycle::lemma_canonical_len(views(raw@));
                }
                let m = minimize_cycle(graph, c);
                proof {
                    crate::cycle::lemma_minimized_nonempty(graph@, views(c@));
                    let rv = views(raw@);
                    assert(rv[0] == graph.names[v as int]@);
                    assert(valid_cycle(graph@, rv));
                    assert(rv.no_duplicates());
                    reveal(search_candidate);
                    assert(search_candidate(graph@, graph.names[v as int]@, views(m@)));
                }
                res = Some(m);
                proof {
                    assert forall|a: int| 0 <= a < stack.len() implies !closing(#[trigger] stack[a], v) by {
                        assert(stack[a] == stack0[a]);
                        assert(a != stack0.len() - 1);
                    }
                    assert forall|i: int, y: int|
                        0 <= i < n && visited[i] && #[trigger] graph.id_edge(i, y) && !visited[y] implies exists|a: int|
                            0 <= a < stack.len() && (#[trigger] stack[a]).1 == i by {
                        let a = choose|a: int| 0 <= a < stack0.len() && (#[trigger] stack0[a]).1 == i;
                        assert(i != v);
                        assert(a != stack0.len() - 1);
                        assert(stack[a] == stack0[a]);
                    }
                }
            },
            None => {
                let ghost expanding_v = x == v;
                proof {
                    if x == v {
                        assert(path.len() == 0);
                        assert(!began);
                        assert(stack.len() == 0);
                    }
                }
                let mut new_path = copy_ids(&path);
                new_path.push(x);
                proof {
                    began = true;
                    assert forall|t: int| 0 <= t < new_path.len() - 1 implies #[trigger] graph.id_edge(new_path[t] as int, new_path[t + 1] as int) by {
                        if t < path.len() - 1 {
                            assert(graph.id_edge(path[t] as int, path[t + 1] as int));
                        }
                    }
                    assert forall|a: int, b: int| 0 <= a < new_path.len() && 0 <= b < new_path.len() && a != b implies new_path[a] != new_path[b] by {
                        if a < path.len() && b < path.len() {
                        } else if a < path.len() {
                            assert(path@.contains(path[a]));
                        } else if b < path.len() {
                            assert(path@.contains(path[b]));
                        }
                    }
                    assert(new_path.len() > 0 ==> new_path[0] == v);
                    assert forall|t: int| 1 <= t < new_path.len() implies new_path[t] != v && visited[#[trigger] new_path[t] as int] by {
                        if t < path.len() {
                            assert(new_path[t] == path[t]);
                        } else {
                            assert(new_path[t] == x);
                            assert(path.len() > 0);
                        }
                    }
                    assert forall|i: int, y: int|
                        0 <= i < n && visited[i] && #[trigger] graph.id_edge(i, y) && !visited[y] && i != x implies exists|a: int|
                            0 <= a < stack.len() && (#[trigger] stack[a]).1 == i by {
                        let a = choose|a: int| 0 <= a < stack0.len() && (#[trigger] stack0[a]).1 == i;
                        assert(a != stack0.len() - 1);
                        assert(stack[a] == stack0[a]);
                    }
                }
                let mut k: usize = 0;
                while k < graph.adj[x].len()
                    invariant
                        graph.wf(),
                        v < n,
                        n == graph.names.len(),
                        x < n,
                        began,
                        expanding_v == (x == v),
                        !expanding_v ==> visited[x as int],
                        visited.len() == n,
                        k <= graph.adj[x as int].len(),
                        2 * count_false(visited@) + stack.len() < m0,
                        path_ok(*graph, new_path@, x) || true,
                        forall|t: int| 0 <= t < new_path.len() ==> new_path[t] < graph.names.len(),
                        forall|t: int| 0 <= t < new_path.len() - 1 ==> #[trigger] graph.id_edge(new_path[t] as int, new_path[t + 1] as int),
                        new_path.len() > 0,
                        new_path@.last() == x,
                        new_path@.no_duplicates(),
                        new_path[0] == v,
                        forall|t: int| 1 <= t < new_path.len() ==> new_path[t] != v && visited[#[trigger] new_path[t] as int],
                        forall|a: int| 0 <= a < stack.len() ==> entry_ok(*graph, visited@, v, #[trigger] stack[a]),
                        forall|a: int, b: int|
                            0 <= a < stack.len() && 0 <= b < stack.len() && closing(#[trigger] stack[a], v) && closing(#[trigger] stack[b], v) ==> a == b,
                        forall|a: int| 0 <= a < stack.len() && closing(#[trigger] stack[a], v) ==> visited[v as int] && res is None,
                        res is Some ==> visited[v as int],
                        visited[v as int] ==> res is Some || exists|a: int| 0 <= a < stack.len() && closing(#[trigger] stack[a], v),
                        forall|a: int| 0 <= a < stack.len() ==> (#[trigger] stack[a]).0.len() > 0,
                        res matches Some(c) ==> found_cycle(graph@, views(c@)) && views(c@).no_duplicates() && reaches_self(graph@, graph.names[v as int]@)
                            && search_candidate(graph@, graph.names[v as int]@, views(c@)),
                        !expanding_v ==> forall|y: int| #[trigger] graph.id_edge(v as int, y) ==> visited[y],
                        forall|k2: int| 0 <= k2 < k ==> visited[#[trigger] graph.adj[x as int][k2] as int],
                        forall|i: int, y: int|
                            0 <= i < n && visited[i] && #[trigger] graph.id_edge(i, y) && !visited[y] && i != x ==> exists|a: int|
                                0 <= a < stack.len() && (#[trigger] stack[a]).1 == i,
                    decreases graph.adj[x as int].len() - k,
                {
                    let y = graph.adj[x][k];
                    if !visited[y] {
                        let ghost st0 = stack@;
                        let ghost vis0 = visited@;
                        proof {
                            lemma_count_false_mark(visited@, y as int);
                        }
                        visited.set(y, true);
                        let p2 = copy_ids(&new_path);
                        proof {
                            assert(graph.id_edge(x as int, y as int));
                            assert(!new_path@.contains(y) || y == v) by {
                                if new_path@.contains(y) && y != v {
                                    let t = choose|t: int| 0 <= t < new_path.len() && new_path[t] == y;
                                    assert(t >= 1);
                                }
                            }
                        }
                        stack.push((p2, y));
                        proof {
                            assert(stack[stack.len() - 1] == (p2, y));
                            assert forall|a: int| 0 <= a < stack.len() implies entry_ok(*graph, visited@, v, #[trigger] stack[a]) by {
                                if a < st0.len() {
                                    assert(stack[a] == st0[a]);
                                    assert(entry_ok(*graph, vis0, v, st0[a]));
                                }
                            }
                            assert forall|a: int, b: int|
                                0 <= a < stack.len() && 0 <= b < stack.len() && closing(#[trigger] stack[a], v) && closing(#[trigger] stack[b], v) implies a == b by {
                                if a < st0.len() {
                                    assert(stack[a] == st0[a]);
                                }
                                if b < st0.len() {
                                    assert(stack[b] == st0[b]);
                                }
                                if y == v && a < st0.len() {
                                    assert(vis0[v as int]);
                                }
                                if y == v && b < st0.len() {
                                    assert(vis0[v as int]);
                                }
                            }
                            assert forall|a: int| 0 <= a < stack.len() && closing(#[trigger] stack[a], v) implies visited[v as int] && res is None by {
                                if a < st0.len() {
                                    assert(stack[a] == st0[a]);
                                } else {
                                    assert(!vis0[v as int]);
                                }
                            }
                            assert(visited[v as int] ==> res is Some || exists|a: int| 0 <= a < stack.len() && closing(#[trigger] stack[a], v)) by {
                                if visited[v as int] && res is None {
                                    if y == v {
                                        assert(closing(stack[stack.len() - 1], v));
                                    } else {
                                        let a = choose|a: int| 0 <= a < st0.len() && closing(#[trigger] st0[a], v);
                                        assert(stack[a] == st0[a]);
                                    }
                                }
                            }
                            assert forall|a: int| 0 <= a < stack.len() implies (#[trigger] stack[a]).0.len() > 0 by {
                                if a < st0.len() {
                                    assert(stack[a] == st0[a]);
                                }
                            }
                            assert forall|i: int, y2: int|
                                0 <= i < n && visited[i] && #[trigger] graph.id_edge(i, y2) && !visited[y2] && i != x implies exists|a: int|
                                    0 <= a < stack.len() && (#[trigger] stack[a]).1 == i by {
                                if i == y {
                                    assert(stack[stack.len() - 1].1 == i);
                                } else {
                                    assert(vis0[i] && !vis0[y2]);
                                    let a = choose|a: int| 0 <= a < st0.len() && (#[trigger] st0[a]).1 == i;
                                    assert(stack[a] == st0[a]);
                                }
                            }
                            assert(forall|k2: int| 0 <= k2 < k ==> vis0[graph.adj[x as int][k2] as int]);
                        }
                    }
                    k = k + 1;
                }
                proof {
                    assert forall|y: int| #[trigger] graph.id_edge(x as int, y) implies visited[y] by {
                        let k2 = choose|k2: int| 0 <= k2 < graph.adj[x as int].len() && graph.adj[x as int][k2] as int == y;
                        assert(visited[graph.adj[x as int][k2] as int]);
                    }
                    assert forall|a: int| 0 <= a < stack.len() && (#[trigger] stack[a]).0.len() == 0 implies !began by {
                        assert(stack[a].0.len() > 0);
                    }
                }
            },
        }
    }
    proof {
        assert(began) by {
            if !began {
                assert(stack.len() == 1);
            }
        }
        if reaches_self(graph@, graph.names[v as int]@) {
            let s = Set::new(|q: Seq<char>| exists|i: int| 0 <= i < n && visited[i] && graph.names[i]@ == q);
            let w = choose|w: Seq<Seq<char>>| is_walk(graph@, w) && w.len() >= 2 && w[0] == graph.names[v as int]@ && w.last() == graph.names[v as int]@;
            let w1 = w.drop_first();
            assert forall|t: int| 0 <= t < w1.len() - 1 implies has_edge_in(graph@, #[trigger] w1[t], w1[t + 1]) by {
                assert(w1[t] == w[t + 1] && w1[t + 1] == w[t + 2]);
                assert(has_edge_in(graph@, w[t + 1], w[t + 2]));
            }
            assert(has_edge_in(graph@, w[0], w[1]));
            graph.lemma_view_at(v as int);
            assert(graph.keyed[v as int]) by {
                if !graph.keyed[v as int] {
                    assert(!graph@.contains_key(graph.names[v as int]@));
                }
            }
            assert(graph.succ_names(v as int).contains(w[1]));
            let k1 = choose|k1: int| 0 <= k1 < graph.adj[v as int].len() && graph.names[graph.adj[v as int][k1] as int]@ == w[1];
            let y1 = graph.adj[v as int][k1] as int;
            assert(graph.id_edge(v as int, y1));
            assert(s.contains(w1[0])) by {
                assert(visited[y1]);
            }
            assert forall|i: int, y: int|
                0 <= i < graph.names.len() && s.contains(graph.names[i]@) && #[trigger] graph.id_edge(i, y) implies s.contains(graph.names[y]@) by {
                let i2 = choose|i2: int| 0 <= i2 < n && visited[i2] && graph.names[i2]@ == graph.names[i]@;
                assert(i2 == i);
                graph.lemma_id_edge(i, y);
                if !visited[y] {
                    let a = choose|a: int| 0 <= a < stack.len() && (#[trigger] stack[a]).1 == i;
                }
            }
            crate::live::lemma_closed_walk(graph, s, w1);
            assert(w1.last() == graph.names[v as int]@);
            let iv = choose|i: int| 0 <= i < n && visited[i] && graph.names[i]@ == graph.names[v as int]@;
            assert(iv == v as int);
        }
    }
    res
}

pub proof fn lemma_reaches_self_key(g: Map<Seq<char>, Set<Seq<char>>>, a: Seq<char>)
    requires
        reaches_self(g, a),
    ensures
        g.contains_key(a),
{
    let w = choose|w: Seq<Seq<char>>| is_walk(g, w) && w.len() >= 2 && w[0] == a && w.last() == a;
    assert(has_edge_in(g, w[0], w[1]));
}

/// The cycles that a depth-first search from `vertex` finds: a path of the
/// search that comes back to `vertex` gives the cycle, canonicalized and
/// then minimized. Every other node is scheduled at most once per search,
/// so there is one cycle exactly where `vertex` comes back to itself, and
/// none otherwise.
pub fn get_cycles_from_vertex(graph: &Graph, vertex: &String) -> (r: Vec<Vec<String>>)
    requires
        graph.wf(),
    ensures
        cycle_set(graph@, r@),
        r.len() <= 1,
        r.len() == 1 <==> reaches_self(graph@, vertex@),
        r.len() == 1 ==> search_candidate(graph@, vertex@, views(r[0]@)),
        !graph@.contains_key(vertex@) ==> r.len() == 0,
{
    let mut cs: Vec<Vec<String>> = Vec::new();
    match graph.find(vertex) {
        Some(v) => {
            if let Some(c) = cycle_from_id(graph, v) {
                cs.push(c);
                proof {
                    assert(cs@.len() == 1);
                }
            }
        },
        None => {
            proof {
                graph.lemma_view_absent(vertex@);
                if reaches_self(graph@, vertex@) {
                    lemma_reaches_self_key(graph@, vertex@);
                }
            }
        },
    }
    proof {
        if reaches_self(graph@, vertex@) {
            lemma_reaches_self_key(graph@, vertex@);
        }
    }
    cs
}

/// The cycles found by a search from every key of `graph`, without repeats:
/// there are some exactly where some key comes back to itself.
pub fn detect_cycles_in_graph(graph: &Graph) -> (r: Vec<Vec<String>>)
    requires
        graph.wf(),
    ensures
        cycle_set(graph@, r@),
        r.len() <= graph.names.len(),
        r.len() > 0 <==> exists|a: Seq<char>| graph@.contains_key(a) && reaches_self(graph@, a),
{
    let mut cs: Vec<Vec<String>> = Vec::new();
    let mut i: usize = 0;
    while i < graph.names.len()
        invariant
            graph.wf(),
            i <= graph.names.len(),
            cycle_set(graph@, cs@),
            cs.len() <= i,
            cs.len() > 0 <==> exists|j: int| 0 <= j < i && graph.keyed[j] && reaches_self(graph@, graph.names[j]@),
        decreases graph.names.len() - i,
    {
        if graph.keyed[i] {
            let found = cycle_from_id(graph, i);
            if let Some(c) = found {
                add_cycle(&mut cs, c, Ghost(graph@));
            }
            proof {
                if reaches_self(graph@, graph.names[i as int]@) {
                    assert(cs.len() > 0);
                }
            }
        }
        proof {
            if exists|j: int| 0 <= j < i + 1 && graph.keyed[j] && reaches_self(graph@, graph.names[j]@) {
                let j = choose|j: int| 0 <= j < i + 1 && graph.keyed[j] && reaches_self(graph@, graph.names[j]@);
                if j < i {
                    assert(cs.len() > 0);
                }
            }
        }
        i = i + 1;
    }
    proof {
        if exists|a: Seq<char>| graph@.contains_key(a) && reaches_self(graph@, a) {
            let a = choose|a: Seq<char>| graph@.contains_key(a) && reaches_self(graph@, a);
            let j = choose|j: int| graph.key_at(j, a);
            assert(graph.keyed[j] && graph.names[j]@ == a);
        }
        if cs.len() > 0 {
            let j = choose|j: int| 0 <= j < i && graph.keyed[j] && reaches_self(graph@, graph.names[j]@);
            graph.lemma_view_at(j);
        }
    }
    cs
}

} // verus!
