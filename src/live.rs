use vstd::prelude::*;

use crate::detect::{all_false, count_false, lemma_count_false_mark};
use crate::graph::{has_edge_in, views, Graph};
use crate::text::{ends_with, is_prefix, is_suffix, starts_with, strip_prefix};

verus! {

/// A nonempty sequence of nodes with an edge from each to the next.
pub open spec fn is_walk(g: Map<Seq<char>, Set<Seq<char>>>, p: Seq<Seq<char>>) -> bool {
    &&& p.len() > 0
    &&& forall|k: int| 0 <= k < p.len() - 1 ==> has_edge_in(g, #[trigger] p[k], p[k + 1])
}

/// `x` is reached by a walk in `g` that starts at a node of `seeds`.
pub open spec fn reachable(g: Map<Seq<char>, Set<Seq<char>>>, seeds: Set<Seq<char>>, x: Seq<char>) -> bool {
    exists|p: Seq<Seq<char>>| is_walk(g, p) && seeds.contains(p[0]) && p.last() == x
}

/// The seeds and every node that they reach in `g`.
pub open spec fn affected(g: Map<Seq<char>, Set<Seq<char>>>, seeds: Set<Seq<char>>) -> Set<Seq<char>> {
    Set::new(|x: Seq<char>| reachable(g, seeds, x))
}

pub proof fn lemma_reach_seed(g: Map<Seq<char>, Set<Seq<char>>>, seeds: Set<Seq<char>>, a: Seq<char>)
    requires
        seeds.contains(a),
    ensures
        reachable(g, seeds, a),
{
    let p = seq![a];
    assert(is_walk(g, p) && seeds.contains(p[0]) && p.last() == a);
}

pub proof fn lemma_reach_step(g: Map<Seq<char>, Set<Seq<char>>>, seeds: Set<Seq<char>>, a: Seq<char>, b: Seq<char>)
    requires
        reachable(g, seeds, a),
        has_edge_in(g, a, b),
    ensures
        reachable(g, seeds, b),
{
    let p = choose|p: Seq<Seq<char>>| is_walk(g, p) && seeds.contains(p[0]) && p.last() == a;
    let q = p.push(b);
    assert forall|k: int| 0 <= k < q.len() - 1 implies has_edge_in(g, #[trigger] q[k], q[k + 1]) by {
        if k < p.len() - 1 {
            assert(q[k] == p[k] && q[k + 1] == p[k + 1]);
        }
    }
    assert(is_walk(g, q) && seeds.contains(q[0]) && q.last() == b);
}

/// Whether `p` lies under one of `roots`.
fn under_some_root(p: &String, roots: &Vec<String>) -> (r: bool)
    ensures
        r == exists|k: int| 0 <= k < roots.len() && is_prefix(#[trigger] views(roots@)[k], p@),
{
    let mut k: usize = 0;
    while k < roots.len()
        invariant
            k <= roots.len(),
            forall|u: int| 0 <= u < k ==> !is_prefix(#[trigger] views(roots@)[u], p@),
        decreases roots.len() - k,
    {
        if starts_with(p.as_str(), roots[k].as_str()) {
            assert(views(roots@)[k as int] == roots[k as int]@);
            return true;
        }
        assert(views(roots@)[k as int] == roots[k as int]@);
        k = k + 1;
    }
    false
}

/// A set closed under the edges of `g` holds the end of every walk that
/// starts in it.
pub proof fn lemma_closed_walk(g: &Graph, s: Set<Seq<char>>, p: Seq<Seq<char>>)
    requires
        g.wf(),
        is_walk(g@, p),
        s.contains(p[0]),
        forall|i: int, y: int|
            0 <= i < g.names.len() && s.contains(g.names[i]@) && #[trigger] g.id_edge(i, y) ==> s.contains(g.names[y]@),
    ensures
        s.contains(p.last()),
    decreases p.len(),
{
    if p.len() > 1 {
        let q = p.drop_last();
        assert forall|k: int| 0 <= k < q.len() - 1 implies has_edge_in(g@, #[trigger] q[k], q[k + 1]) by {
            assert(q[k] == p[k] && q[k + 1] == p[k + 1]);
        }
        lemma_closed_walk(g, s, q);
        let a = q.last();
        let b = p.last();
        assert(has_edge_in(g@, p[p.len() - 2], p[p.len() - 1]));
        let i = choose|i: int| g.key_at(i, a);
        g.lemma_view_at(i);
        assert(g.succ_names(i).contains(b));
        let k = choose|k: int| 0 <= k < g.adj[i].len() && g.names[g.adj[i][k] as int]@ == b;
        assert(g.id_edge(i, g.adj[i][k] as int));
    }
}

/// Whether `s` occurs in `v`.
fn contains_name(v: &Vec<String>, s: &String) -> (r: bool)
    ensures
        r == views(v@).contains(s@),
{
    let mut k: usize = 0;
    while k < v.len()
        invariant
            k <= v.len(),
            forall|t: int| 0 <= t < k ==> v[t]@ != s@,
        decreases v.len() - k,
    {
        if v[k] == *s {
            assert(views(v@)[k as int] == s@);
            return true;
        }
        k = k + 1;
    }
    false
}

/// The files affected by a change of `modified_files`: those files and every
/// node that they reach in `dependents`, each once.
pub fn get_affected_files(modified_files: &Vec<String>, dependents: &Graph) -> (r: Vec<String>)
    requires
        dependents.wf(),
    ensures
        views(r@).to_set() == affected(dependents@, views(modified_files@).to_set()),
        views(r@).no_duplicates(),
{
    let g = dependents;
    let ghost gm = g@;
    let ghost seeds = views(modified_files@).to_set();
    let n = g.names.len();
    let mut seen = all_false(n);
    let mut out: Vec<String> = Vec::new();
    let mut queue: Vec<usize> = Vec::new();
    let mut t: usize = 0;
    while t < modified_files.len()
        invariant
            g.wf(),
            gm == g@,
            seeds == views(modified_files@).to_set(),
            n == g.names.len(),
            seen.len() == n,
            t <= modified_files.len(),
            forall|u: int| 0 <= u < queue.len() ==> #[trigger] queue[u] < n && seen[queue[u] as int],
            forall|i: int| 0 <= i < n ==> (seen[i] <==> views(out@).contains(#[trigger] g.names[i]@)),
            forall|i: int| 0 <= i < n && #[trigger] seen[i] ==> queue@.contains(i as usize),
            views(out@).no_duplicates(),
            forall|u: int| 0 <= u < out.len() ==> reachable(gm, seeds, #[trigger] out[u]@),
            forall|u: int| 0 <= u < t ==> views(out@).contains(#[trigger] modified_files[u]@),
            forall|u: int, y: int| 0 <= u < 0 && #[trigger] g.id_edge(queue[u] as int, y) ==> seen[y],
        decreases modified_files.len() - t,
    {
        let s = &modified_files[t];
        proof {
            assert(views(modified_files@)[t as int] == s@);
            lemma_reach_seed(gm, seeds, s@);
        }
        let ghost out0 = views(out@);
        match g.find(s) {
            Some(i) => {
                if !seen[i] {
                    let ghost q0 = queue@;
                    seen.set(i, true);
                    out.push(s.clone());
                    queue.push(i);
                    proof {
                        assert(views(out@) =~= out0.push(s@));
                        assert(queue[queue.len() - 1] == i);
                        assert forall|i2: int| 0 <= i2 < n implies (seen[i2] <==> views(out@).contains(#[trigger] g.names[i2]@)) by {
                            if i2 != i {
                                assert(g.names[i2]@ != s@);
                                if out0.contains(g.names[i2]@) {
                                    let w = choose|w: int| 0 <= w < out0.len() && out0[w] == g.names[i2]@;
                                    assert(views(out@)[w] == g.names[i2]@);
                                }
                            }
                            assert(views(out@)[out.len() - 1] == s@);
                        }
                        assert forall|i2: int| 0 <= i2 < n && #[trigger] seen[i2] implies queue@.contains(i2 as usize) by {
                            if i2 != i {
                                assert(q0.contains(i2 as usize));
                                let w = choose|w: int| 0 <= w < q0.len() && q0[w] == i2 as usize;
                                assert(queue[w] == i2 as usize);
                            }
                        }
                        assert forall|u: int| 0 <= u < t + 1 implies views(out@).contains(#[trigger] modified_files[u]@) by {
                            if u < t {
                                let w = choose|w: int| 0 <= w < out0.len() && out0[w] == modified_files[u]@;
                                assert(views(out@)[w] == modified_files[u]@);
                            } else {
                                assert(views(out@)[out.len() - 1] == s@);
                            }
                        }
                    }
                } else {
                    proof {
                        assert(views(out@).contains(g.names[i as int]@));
                    }
                }
            },
            None => {
                if !contains_name(&out, s) {
                    out.push(s.clone());
                    proof {
                        assert(views(out@) =~= out0.push(s@));
                        assert forall|i2: int| 0 <= i2 < n implies (seen[i2] <==> views(out@).contains(#[trigger] g.names[i2]@)) by {
                            if out0.contains(g.names[i2]@) {
                                let w = choose|w: int| 0 <= w < out0.len() && out0[w] == g.names[i2]@;
                                assert(views(out@)[w] == g.names[i2]@);
                            }
                        }
                        assert forall|u: int| 0 <= u < t + 1 implies views(out@).contains(#[trigger] modified_files[u]@) by {
                            if u < t {
                                let w = choose|w: int| 0 <= w < out0.len() && out0[w] == modified_files[u]@;
                                assert(views(out@)[w] == modified_files[u]@);
                            } else {
                                assert(views(out@)[out.len() - 1] == s@);
                            }
                        }
                    }
                }
            },
        }
        t = t + 1;
    }
    let mut h: usize = 0;
    while h < queue.len()
        invariant
            g.wf(),
            gm == g@,
            seeds == views(modified_files@).to_set(),
            n == g.names.len(),
            seen.len() == n,
            forall|u: int| 0 <= u < queue.len() ==> #[trigger] queue[u] < n && seen[queue[u] as int],
            forall|i: int| 0 <= i < n ==> (seen[i] <==> views(out@).contains(#[trigger] g.names[i]@)),
            forall|i: int| 0 <= i < n && #[trigger] seen[i] ==> queue@.contains(i as usize),
            views(out@).no_duplicates(),
            forall|u: int| 0 <= u < out.len() ==> reachable(gm, seeds, #[trigger] out[u]@),
            forall|u: int| 0 <= u < modified_files.len() ==> views(out@).contains(#[trigger] modified_files[u]@),
            h <= queue.len(),
            forall|u: int, y: int| 0 <= u < h && #[trigger] g.id_edge(queue[u] as int, y) ==> seen[y],
        decreases 2 * count_false(seen@) + queue.len() - h,
    {
        let x = queue[h];
        let ghost m0 = 2 * count_false(seen@) + queue.len() - h;
        let mut k: usize = 0;
        while k < g.adj[x].len()
            invariant
                g.wf(),
                gm == g@,
                seeds == views(modified_files@).to_set(),
                n == g.names.len(),
                seen.len() == n,
                forall|u: int| 0 <= u < queue.len() ==> #[trigger] queue[u] < n && seen[queue[u] as int],
                forall|i: int| 0 <= i < n ==> (seen[i] <==> views(out@).contains(#[trigger] g.names[i]@)),
                forall|i: int| 0 <= i < n && #[trigger] seen[i] ==> queue@.contains(i as usize),
                views(out@).no_duplicates(),
                forall|u: int| 0 <= u < out.len() ==> reachable(gm, seeds, #[trigger] out[u]@),
                forall|u: int| 0 <= u < modified_files.len() ==> views(out@).contains(#[trigger] modified_files[u]@),
                h < queue.len(),
                x == queue[h as int],
                k <= g.adj[x as int].len(),
                forall|k2: int| 0 <= k2 < k ==> seen[#[trigger] g.adj[x as int][k2] as int],
                forall|u: int, y: int| 0 <= u < h && #[trigger] g.id_edge(queue[u] as int, y) ==> seen[y],
                2 * count_false(seen@) + queue.len() - h <= m0,
            decreases g.adj[x as int].len() - k,
        {
            let y = g.adj[x][k];
            if !seen[y] {
                let ghost q0 = queue@;
                let ghost out0 = views(out@);
                let ghost seen0 = seen@;
                proof {
                    lemma_count_false_mark(seen@, y as int);
                    assert(g.id_edge(x as int, y as int));
                    g.lemma_id_edge(x as int, y as int);
                    assert(out0.contains(g.names[x as int]@));
                    let w = choose|w: int| 0 <= w < out0.len() && out0[w] == g.names[x as int]@;
                    assert(reachable(gm, seeds, out[w]@));
                    lemma_reach_step(gm, seeds, g.names[x as int]@, g.names[y as int]@);
                }
                seen.set(y, true);
                out.push(g.names[y].clone());
                queue.push(y);
                proof {
                    let nm = g.names[y as int]@;
                    assert(views(out@) =~= out0.push(nm));
                    assert(views(out@)[out.len() - 1] == nm);
                    assert(queue[queue.len() - 1] == y);
                    assert forall|i2: int| 0 <= i2 < n implies (seen[i2] <==> views(out@).contains(#[trigger] g.names[i2]@)) by {
                        if i2 != y {
                            assert(g.names[i2]@ != nm);
                            if out0.contains(g.names[i2]@) {
                                let w = choose|w: int| 0 <= w < out0.len() && out0[w] == g.names[i2]@;
                                assert(views(out@)[w] == g.names[i2]@);
                            }
                        }
                    }
                    assert forall|i2: int| 0 <= i2 < n && #[trigger] seen[i2] implies queue@.contains(i2 as usize) by {
                        if i2 != y {
                            assert(q0.contains(i2 as usize));
                            let w = choose|w: int| 0 <= w < q0.len() && q0[w] == i2 as usize;
                            assert(queue[w] == i2 as usize);
                        }
                    }
                    assert forall|u: int| 0 <= u < modified_files.len() implies views(out@).contains(#[trigger] modified_files[u]@) by {
                        let w = choose|w: int| 0 <= w < out0.len() && out0[w] == modified_files[u]@;
                        assert(views(out@)[w] == modified_files[u]@);
                    }
                    assert forall|u: int, y2: int| 0 <= u < h && #[trigger] g.id_edge(queue[u] as int, y2) implies seen[y2] by {
                        assert(queue[u] == q0[u]);
                        assert(seen0[y2]);
                    }
                    assert(forall|k2: int| 0 <= k2 < k ==> seen0[g.adj[x as int][k2] as int]);
                }
            }
            k = k + 1;
        }
        proof {
            assert forall|u: int, y: int| 0 <= u < h + 1 && #[trigger] g.id_edge(queue[u] as int, y) implies seen[y] by {
                if u == h {
                    let k2 = choose|k2: int| 0 <= k2 < g.adj[x as int].len() && g.adj[x as int][k2] as int == y;
                    assert(seen[g.adj[x as int][k2] as int]);
                }
            }
        }
        h = h + 1;
    }
    proof {
        let s = views(out@).to_set();
        assert forall|i: int, y: int| 0 <= i < n && s.contains(g.names[i]@) && #[trigger] g.id_edge(i, y) implies s.contains(g.names[y]@) by {
            assert(views(out@).contains(g.names[i]@));
            assert(queue@.contains(i as usize));
            let u = choose|u: int| 0 <= u < queue.len() && queue[u] == i as usize;
            assert(g.id_edge(queue[u] as int, y));
            g.lemma_id_edge(i, y);
        }
        assert forall|x: Seq<char>| s.contains(x) == affected(gm, seeds).contains(x) by {
            if s.contains(x) {
                let w = choose|w: int| 0 <= w < out.len() && views(out@)[w] == x;
                assert(reachable(gm, seeds, out[w]@));
            }
            if reachable(gm, seeds, x) {
                let p = choose|p: Seq<Seq<char>>| is_walk(gm, p) && seeds.contains(p[0]) && p.last() == x;
                let u = choose|u: int| 0 <= u < modified_files.len() && views(modified_files@)[u] == p[0];
                assert(views(out@).contains(modified_files[u]@));
                lemma_closed_walk(g, s, p);
            }
        }
        assert(s =~= affected(gm, seeds));
    }
    out
}

/// The entry of `m` in `d`, empty where `m` is no key.
pub open spec fn entry_or_empty(d: Map<Seq<char>, Set<Seq<char>>>, m: Seq<char>) -> Set<Seq<char>> {
    if d.contains_key(m) {
        d[m]
    } else {
        Set::empty()
    }
}

/// The dependents graph `d` after `path`'s dependencies changed from `old`
/// to `new`: `path` leaves the entry of every dependency it lost and joins
/// the entry of every dependency it has, which is created where missing.
pub open spec fn dependents_after(
    d: Map<Seq<char>, Set<Seq<char>>>,
    path: Seq<char>,
    old: Set<Seq<char>>,
    new: Set<Seq<char>>,
) -> Map<Seq<char>, Set<Seq<char>>> {
    Map::new(
        |m: Seq<char>| d.contains_key(m) || new.contains(m),
        |m: Seq<char>|
            if new.contains(m) {
                entry_or_empty(d, m).insert(path)
            } else if old.contains(m) {
                d[m].remove(path)
            } else {
                d[m]
            },
    )
}

/// The dependents graph `d` once the node `path` is gone: its entry is
/// removed and no other entry lists it.
pub open spec fn dependents_without(d: Map<Seq<char>, Set<Seq<char>>>, path: Seq<char>) -> Map<
    Seq<char>,
    Set<Seq<char>>,
> {
    Map::new(|m: Seq<char>| d.contains_key(m) && m != path, |m: Seq<char>| d[m].remove(path))
}

/// A changed path deserves attention where it is known already, or names a
/// source file or a project configuration file.
pub open spec fn is_relevant(path: Seq<char>, known: bool) -> bool {
    known || is_suffix(".py"@, path) || is_suffix("ruff.toml"@, path) || is_suffix(".ruff.toml"@, path)
        || is_suffix("pyproject.toml"@, path)
}

/// The relevant paths among `ps` that lie under `cwd`, made relative to it.
pub open spec fn relevant_seq(d: Map<Seq<char>, Set<Seq<char>>>, ps: Seq<Seq<char>>, cwd: Seq<char>) -> Seq<Seq<char>>
    decreases ps.len(),
{
    if ps.len() == 0 {
        Seq::empty()
    } else {
        let rest = relevant_seq(d, ps.drop_last(), cwd);
        let p = ps.last();
        if is_relevant(p, d.contains_key(p)) && is_prefix(cwd, p) {
            rest.push(p.subrange(cwd.len() as int, p.len() as int))
        } else {
            rest
        }
    }
}

/// The views of an analyzer update: each path with its set of dependencies.
pub open spec fn update_view(u: Seq<(String, Vec<String>)>) -> Seq<(Seq<char>, Set<Seq<char>>)> {
    u.map_values(|e: (String, Vec<String>)| (e.0@, views(e.1@).to_set()))
}

/// Both graphs, as `(dependencies, dependents)`, after the updates of `u`
/// in order.
pub open spec fn graphs_after(
    deps: Map<Seq<char>, Set<Seq<char>>>,
    dents: Map<Seq<char>, Set<Seq<char>>>,
    u: Seq<(Seq<char>, Set<Seq<char>>)>,
) -> (Map<Seq<char>, Set<Seq<char>>>, Map<Seq<char>, Set<Seq<char>>>)
    decreases u.len(),
{
    if u.len() == 0 {
        (deps, dents)
    } else {
        let (d1, t1) = graphs_after(deps, dents, u.drop_last());
        let (p, s) = u.last();
        (d1.insert(p, s), dependents_after(t1, p, entry_or_empty(d1, p), s))
    }
}

/// Both graphs after the removal of each node of `ps` in order.
pub open spec fn graphs_without(
    deps: Map<Seq<char>, Set<Seq<char>>>,
    dents: Map<Seq<char>, Set<Seq<char>>>,
    ps: Seq<Seq<char>>,
) -> (Map<Seq<char>, Set<Seq<char>>>, Map<Seq<char>, Set<Seq<char>>>)
    decreases ps.len(),
{
    if ps.len() == 0 {
        (deps, dents)
    } else {
        let (d1, t1) = graphs_without(deps, dents, ps.drop_last());
        (d1.remove(ps.last()), dependents_without(t1, ps.last()))
    }
}

/// The affected files that are still keys of `d` and lie under one of `roots`.
pub open spec fn affected_in_roots(
    d: Map<Seq<char>, Set<Seq<char>>>,
    seeds: Set<Seq<char>>,
    roots: Seq<Seq<char>>,
) -> Set<Seq<char>> {
    Set::new(
        |x: Seq<char>|
            affected(d, seeds).contains(x) && d.contains_key(x) && exists|k: int|
                0 <= k < roots.len() && is_prefix(#[trigger] roots[k], x),
    )
}

/// After an update gives `path` the dependency `dep`, the dependents of
/// `dep` list `path`.
pub proof fn lemma_update_records_dependent(
    d: Map<Seq<char>, Set<Seq<char>>>,
    path: Seq<char>,
    old: Set<Seq<char>>,
    new: Set<Seq<char>>,
    dep: Seq<char>,
)
    requires
        new.contains(dep),
    ensures
        has_edge_in(dependents_after(d, path, old, new), dep, path),
{
}

/// After a sequence of updates in which the last entry for `x` gives it the
/// dependency `y`, the dependencies of `x` are that entry's, and the
/// dependents of `y` list `x`.
pub proof fn lemma_updates_record_dependent(
    deps: Map<Seq<char>, Set<Seq<char>>>,
    dents: Map<Seq<char>, Set<Seq<char>>>,
    u: Seq<(Seq<char>, Set<Seq<char>>)>,
    t: int,
    y: Seq<char>,
)
    requires
        0 <= t < u.len(),
        u[t].1.contains(y),
        forall|t2: int| t < t2 < u.len() ==> (#[trigger] u[t2]).0 != u[t].0,
    ensures
        graphs_after(deps, dents, u).0.contains_key(u[t].0),
        graphs_after(deps, dents, u).0[u[t].0] == u[t].1,
        has_edge_in(graphs_after(deps, dents, u).1, y, u[t].0),
    decreases u.len(),
{
    let x = u[t].0;
    if t < u.len() - 1 {
        let w = u.drop_last();
        assert(w[t] == u[t]);
        assert forall|t2: int| t < t2 < w.len() implies (#[trigger] w[t2]).0 != w[t].0 by {
            assert(w[t2] == u[t2]);
        }
        lemma_updates_record_dependent(deps, dents, w, t, y);
        let (d1, t1) = graphs_after(deps, dents, w);
        let (p, s) = u.last();
        assert(u[u.len() - 1].0 != x);
        assert(p != x);
        let t2 = dependents_after(t1, p, entry_or_empty(d1, p), s);
        assert(t2.contains_key(y));
        if s.contains(y) {
            assert(entry_or_empty(t1, y) == t1[y]);
            assert(t2[y] == t1[y].insert(p));
        } else if entry_or_empty(d1, p).contains(y) {
            assert(t2[y] == t1[y].remove(p));
        }
    }
}

/// After the removal of `path`, neither graph has it as a key and no entry
/// of the dependents graph lists it.
pub proof fn lemma_removal_forgets(
    deps: Map<Seq<char>, Set<Seq<char>>>,
    dents: Map<Seq<char>, Set<Seq<char>>>,
    path: Seq<char>,
)
    ensures
        !deps.remove(path).contains_key(path),
        !dependents_without(dents, path).contains_key(path),
        forall|m: Seq<char>| !has_edge_in(dependents_without(dents, path), m, path),
{
}

/// The two orientations of the dependency graph that live mode keeps: an
/// edge `a -> b` of `dependencies` says that `a` imports `b`, an edge
/// `b -> a` of `dependents` says the same.
pub struct LiveGraphs {
    pub dependents: Graph,
    pub dependencies: Graph,
}

impl LiveGraphs {
    pub open spec fn wf(&self) -> bool {
        self.dependents.wf() && self.dependencies.wf()
    }

    pub fn new(dependents: Graph, dependencies: Graph) -> (r: LiveGraphs)
        requires
            dependents.wf(),
            dependencies.wf(),
        ensures
            r.wf(),
            r.dependents == dependents,
            r.dependencies == dependencies,
    {
        LiveGraphs { dependents, dependencies }
    }

    /// The changed paths of a notification that deserve attention, relative
    /// to `cwd`; those outside `cwd` are dropped.
    pub fn relevant_paths(&self, event_paths: &Vec<String>, cwd: &String) -> (r: Vec<String>)
        requires
            self.wf(),
        ensures
            views(r@) == relevant_seq(self.dependents@, views(event_paths@), cwd@),
    {
        let mut r: Vec<String> = Vec::new();
        let mut t: usize = 0;
        while t < event_paths.len()
            invariant
                self.wf(),
                t <= event_paths.len(),
                views(r@) == relevant_seq(self.dependents@, views(event_paths@).subrange(0, t as int), cwd@),
            decreases event_paths.len() - t,
        {
            let p = &event_paths[t];
            let ghost ps = views(event_paths@).subrange(0, t + 1);
            proof {
                assert(ps.drop_last() =~= views(event_paths@).subrange(0, t as int));
                assert(ps.last() == p@);
            }
            let relevant = self.dependents.contains_key(p) || ends_with(p.as_str(), ".py")
                || ends_with(p.as_str(), "ruff.toml") || ends_with(p.as_str(), ".ruff.toml")
                || ends_with(p.as_str(), "pyproject.toml");
            if relevant {
                if let Some(rel) = strip_prefix(p.as_str(), cwd.as_str()) {
                    let ghost r0 = r@;
                    r.push(rel);
                    proof {
                        assert(views(r@) =~= views(r0).push(rel@));
                    }
                }
            }
            t = t + 1;
        }
        proof {
            assert(views(event_paths@).subrange(0, t as int) =~= views(event_paths@));
        }
        r
    }

    /// Applies the analyzer's new dependency lists in order.
    pub fn apply_update(&mut self, update: &Vec<(String, Vec<String>)>)
        requires
            old(self).wf(),
        ensures
            final(self).wf(),
            (final(self).dependencies@, final(self).dependents@) == graphs_after(
                old(self).dependencies@,
                old(self).dependents@,
                update_view(update@),
            ),
    {
        let mut t: usize = 0;
        while t < update.len()
            invariant
                self.wf(),
                t <= update.len(),
                (self.dependencies@, self.dependents@) == graphs_after(
                    old(self).dependencies@,
                    old(self).dependents@,
                    update_view(update@).subrange(0, t as int),
                ),
            decreases update.len() - t,
        {
            let entry = &update[t];
            proof {
                let u1 = update_view(update@).subrange(0, t + 1);
                assert(u1.drop_last() =~= update_view(update@).subrange(0, t as int));
                assert(u1.last() == (entry.0@, views(entry.1@).to_set()));
            }
            self.update_dependencies(&entry.0, &entry.1);
            t = t + 1;
        }
        proof {
            assert(update_view(update@).subrange(0, t as int) =~= update_view(update@));
        }
    }

    /// Removes each node of `paths` in order.
    pub fn remove_nodes(&mut self, paths: &Vec<String>)
        requires
            old(self).wf(),
        ensures
            final(self).wf(),
            (final(self).dependencies@, final(self).dependents@) == graphs_without(
                old(self).dependencies@,
                old(self).dependents@,
                views(paths@),
            ),
    {
        let mut t: usize = 0;
        while t < paths.len()
            invariant
                self.wf(),
                t <= paths.len(),
                (self.dependencies@, self.dependents@) == graphs_without(
                    old(self).dependencies@,
                    old(self).dependents@,
                    views(paths@).subrange(0, t as int),
                ),
            decreases paths.len() - t,
        {
            proof {
                let p1 = views(paths@).subrange(0, t + 1);
                assert(p1.drop_last() =~= views(paths@).subrange(0, t as int));
                assert(p1.last() == paths[t as int]@);
            }
            self.remove_node(&paths[t]);
            t = t + 1;
        }
        proof {
            assert(views(paths@).subrange(0, t as int) =~= views(paths@));
        }
    }

    /// The files affected by a change of `changed` that are still known
    /// and lie under one of `roots`.
    pub fn affected_under_roots(&self, changed: &Vec<String>, roots: &Vec<String>) -> (r: Vec<String>)
        requires
            self.wf(),
        ensures
            views(r@).to_set() == affected_in_roots(self.dependents@, views(changed@).to_set(), views(roots@)),
            views(r@).no_duplicates(),
    {
        let all = get_affected_files(changed, &self.dependents);
        let ghost want = affected_in_roots(self.dependents@, views(changed@).to_set(), views(roots@));
        let mut r: Vec<String> = Vec::new();
        let mut t: usize = 0;
        while t < all.len()
            invariant
                self.wf(),
                t <= all.len(),
                views(all@).to_set() == affected(self.dependents@, views(changed@).to_set()),
                views(all@).no_duplicates(),
                want == affected_in_roots(self.dependents@, views(changed@).to_set(), views(roots@)),
                views(r@).no_duplicates(),
                forall|x: Seq<char>| #[trigger] views(r@).contains(x) <==> (views(all@).subrange(0, t as int).contains(x) && want.contains(x)),
            decreases all.len() - t,
        {
            let p = &all[t];
            let keep = self.dependents.contains_key(p) && under_some_root(p, roots);
            let ghost r0 = views(r@);
            proof {
                assert(forall|x: Seq<char>| #[trigger] r0.contains(x) <==> (views(all@).subrange(0, t as int).contains(x) && want.contains(x)));
                assert(views(all@)[t as int] == p@);
                assert(views(all@).to_set().contains(p@));
                assert(keep == want.contains(p@));
            }
            if keep {
                r.push(p.clone());
                proof {
                    assert(views(r@) =~= r0.push(p@));
                    assert(!r0.contains(p@)) by {
                        if r0.contains(p@) {
                            let w = choose|w: int| 0 <= w < t && views(all@)[w] == p@;
                        }
                    }
                }
            }
            proof {
                let d0 = views(all@).subrange(0, t as int);
                let d1 = views(all@).subrange(0, t + 1);
                assert(d1 =~= d0.push(p@));
                assert(!d0.contains(p@)) by {
                    if d0.contains(p@) {
                        let w = choose|w: int| 0 <= w < d0.len() && d0[w] == p@;
                        assert(views(all@)[w] == views(all@)[t as int]);
                    }
                }
                assert forall|x: Seq<char>| views(r@).contains(x) <==> (d1.contains(x) && want.contains(x)) by {
                    assert(r0.contains(x) <==> (d0.contains(x) && want.contains(x)));
                    assert(d1.contains(x) <==> (d0.contains(x) || x == p@)) by {
                        if d1.contains(x) && x != p@ {
                            let w = choose|w: int| 0 <= w < d1.len() && d1[w] == x;
                            assert(d0[w] == x);
                        }
                        if d0.contains(x) {
                            let w = choose|w: int| 0 <= w < d0.len() && d0[w] == x;
                            assert(d1[w] == x);
                        }
                        if x == p@ {
                            assert(d1[t as int] == x);
                        }
                    }
                    if keep {
                        assert(views(r@).contains(x) <==> (r0.contains(x) || x == p@)) by {
                            if views(r@).contains(x) && x != p@ {
                                let w = choose|w: int| 0 <= w < views(r@).len() && views(r@)[w] == x;
                                assert(r0[w] == x);
                            }
                            if r0.contains(x) {
                                let w = choose|w: int| 0 <= w < r0.len() && r0[w] == x;
                                assert(views(r@)[w] == x);
                            }
                            if x == p@ {
                                assert(views(r@)[r0.len() as int] == x);
                            }
                        }
                    } else {
                        assert(views(r@) == r0);
                    }
                }
            }
            t = t + 1;
        }
        proof {
            assert(views(all@).subrange(0, t as int) =~= views(all@));
            assert(views(r@).to_set() =~= want);
        }
        r
    }

    /// One batch of changed paths: for a change other than a removal the
    /// analyzer's `update` is applied first; the affected files under
    /// `roots` are computed next; for a removal the paths are then removed.
    pub fn handle_change(
        &mut self,
        changed: &Vec<String>,
        update: &Vec<(String, Vec<String>)>,
        is_removal: bool,
        roots: &Vec<String>,
    ) -> (r: Vec<String>)
        requires
            old(self).wf(),
        ensures
            final(self).wf(),
            ({
                let (d1, t1) = if is_removal {
                    (old(self).dependencies@, old(self).dependents@)
                } else {
                    graphs_after(old(self).dependencies@, old(self).dependents@, update_view(update@))
                };
                &&& views(r@).to_set() == affected_in_roots(t1, views(changed@).to_set(), views(roots@))
                &&& (final(self).dependencies@, final(self).dependents@) == if is_removal {
                    graphs_without(d1, t1, views(changed@))
                } else {
                    (d1, t1)
                }
            }),
            views(r@).no_duplicates(),
    {
        if !is_removal {
            self.apply_update(update);
        }
        let r = self.affected_under_roots(changed, roots);
        if is_removal {
            self.remove_nodes(changed);
        }
        r
    }

    /// Records that `path` now depends on exactly `new_deps`, and updates
    /// the dependents graph to match.
    pub fn update_dependencies(&mut self, path: &String, new_deps: &Vec<String>)
        requires
            old(self).wf(),
        ensures
            final(self).wf(),
            final(self).dependencies@ == old(self).dependencies@.insert(path@, views(new_deps@).to_set()),
            final(self).dependents@ == dependents_after(
                old(self).dependents@,
                path@,
                entry_or_empty(old(self).dependencies@, path@),
                views(new_deps@).to_set(),
            ),
    {
        let ghost d0 = self.dependents@;
        let ghost new = views(new_deps@).to_set();
        let ghost olds = entry_or_empty(self.dependencies@, path@);
        let old_deps = match self.dependencies.successors(path) {
            Some(v) => v,
            None => Vec::new(),
        };
        proof {
            assert(views(old_deps@).to_set() =~= olds);
        }
        self.dependencies.insert(path, new_deps);
        let mut t: usize = 0;
        while t < old_deps.len()
            invariant
                self.wf(),
                self.dependencies@ == old(self).dependencies@.insert(path@, new),
                new == views(new_deps@).to_set(),
                views(old_deps@).to_set() == olds,
                t <= old_deps.len(),
                self.dependents@ == Map::new(
                    |m: Seq<char>| d0.contains_key(m),
                    |m: Seq<char>|
                        if views(old_deps@).subrange(0, t as int).contains(m) && !new.contains(m) {
                            d0[m].remove(path@)
                        } else {
                            d0[m]
                        },
                ),
            decreases old_deps.len() - t,
        {
            let ghost before = self.dependents@;
            let ghost done0 = views(old_deps@).subrange(0, t as int);
            let ghost done1 = views(old_deps@).subrange(0, t + 1);
            let m0 = &old_deps[t];
            let keep = contains_name(new_deps, m0);
            if !keep {
                self.dependents.remove_edge(m0, path);
            }
            proof {
                assert(new.contains(m0@) == keep) by {
                    if new.contains(m0@) {
                        let u = choose|u: int| 0 <= u < views(new_deps@).len() && views(new_deps@)[u] == m0@;
                        assert(views(new_deps@).contains(m0@));
                    }
                }
                assert(done1 =~= done0.push(m0@));
                let want = Map::new(
                    |m: Seq<char>| d0.contains_key(m),
                    |m: Seq<char>|
                        if done1.contains(m) && !new.contains(m) {
                            d0[m].remove(path@)
                        } else {
                            d0[m]
                        },
                );
                assert forall|m: Seq<char>| #[trigger] self.dependents@.contains_key(m) == want.contains_key(m)
                    && (want.contains_key(m) ==> self.dependents@[m] == want[m]) by {
                    assert(done1.contains(m) == (done0.contains(m) || m == m0@)) by {
                        if done1.contains(m) {
                            let u = choose|u: int| 0 <= u < done1.len() && done1[u] == m;
                            if u < t {
                                assert(done0[u] == m);
                            }
                        }
                        if done0.contains(m) {
                            let u = choose|u: int| 0 <= u < done0.len() && done0[u] == m;
                            assert(done1[u] == m);
                        }
                        if m == m0@ {
                            assert(done1[t as int] == m);
                        }
                    }
                    if m == m0@ && done0.contains(m) && !new.contains(m) && d0.contains_key(m) {
                        assert(d0[m].remove(path@).remove(path@) =~= d0[m].remove(path@));
                    }
                }
                assert(self.dependents@.dom() =~= want.dom());
                assert(self.dependents@ =~= want);
            }
            t = t + 1;
        }
        let ghost d1 = self.dependents@;
        proof {
            assert(views(old_deps@).subrange(0, t as int) =~= views(old_deps@));
        }
        let mut t: usize = 0;
        while t < new_deps.len()
            invariant
                self.wf(),
                self.dependencies@ == old(self).dependencies@.insert(path@, new),
                new == views(new_deps@).to_set(),
                t <= new_deps.len(),
                self.dependents@ == Map::new(
                    |m: Seq<char>| d1.contains_key(m) || views(new_deps@).subrange(0, t as int).contains(m),
                    |m: Seq<char>|
                        if views(new_deps@).subrange(0, t as int).contains(m) {
                            entry_or_empty(d1, m).insert(path@)
                        } else {
                            d1[m]
                        },
                ),
            decreases new_deps.len() - t,
        {
            let ghost done0 = views(new_deps@).subrange(0, t as int);
            let ghost done1 = views(new_deps@).subrange(0, t + 1);
            let m0 = &new_deps[t];
            self.dependents.add_edge(m0, path);
            proof {
                assert(done1 =~= done0.push(m0@));
                let want = Map::new(
                    |m: Seq<char>| d1.contains_key(m) || done1.contains(m),
                    |m: Seq<char>|
                        if done1.contains(m) {
                            entry_or_empty(d1, m).insert(path@)
                        } else {
                            d1[m]
                        },
                );
                assert forall|m: Seq<char>| #[trigger] self.dependents@.contains_key(m) == want.contains_key(m)
                    && (want.contains_key(m) ==> self.dependents@[m] == want[m]) by {
                    assert(done1.contains(m) == (done0.contains(m) || m == m0@)) by {
                        if done1.contains(m) {
                            let u = choose|u: int| 0 <= u < done1.len() && done1[u] == m;
                            if u < t {
                                assert(done0[u] == m);
                            }
                        }
                        if done0.contains(m) {
                            let u = choose|u: int| 0 <= u < done0.len() && done0[u] == m;
                            assert(done1[u] == m);
                        }
                        if m == m0@ {
                            assert(done1[t as int] == m);
                        }
                    }
                    if m == m0@ && done0.contains(m) {
                        assert(entry_or_empty(d1, m).insert(path@).insert(path@) =~= entry_or_empty(d1, m).insert(path@));
                    }
                    if m == m0@ && !done0.contains(m) && d1.contains_key(m) {
                        assert(entry_or_empty(d1, m).insert(path@) =~= d1[m].insert(path@));
                    }
                    if m == m0@ && !done0.contains(m) && !d1.contains_key(m) {
                        assert(entry_or_empty(d1, m).insert(path@) =~= set![path@]);
                    }
                }
                assert(self.dependents@.dom() =~= want.dom());
                assert(self.dependents@ =~= want);
            }
            t = t + 1;
        }
        proof {
            assert(views(new_deps@).subrange(0, t as int) =~= views(new_deps@));
            let want = dependents_after(d0, path@, olds, new);
            assert forall|m: Seq<char>| #[trigger] self.dependents@.contains_key(m) == want.contains_key(m)
                && (want.contains_key(m) ==> self.dependents@[m] == want[m]) by {
                assert(views(new_deps@).contains(m) == new.contains(m));
                assert(views(old_deps@).contains(m) == olds.contains(m));
            }
            assert(self.dependents@.dom() =~= want.dom());
            assert(self.dependents@ =~= want);
        }
    }

    /// Forgets the node `path`: its entries in both graphs go, and no entry
    /// of the dependents graph lists it any more.
    pub fn remove_node(&mut self, path: &String)
        requires
            old(self).wf(),
        ensures
            final(self).wf(),
            final(self).dependencies@ == old(self).dependencies@.remove(path@),
            final(self).dependents@ == dependents_without(old(self).dependents@, path@),
    {
        let ghost d0 = self.dependents@;
        self.dependents.remove_key(path);
        self.dependencies.remove_key(path);
        self.dependents.remove_from_all(path);
        proof {
            assert(self.dependents@ =~= dependents_without(d0, path@));
        }
    }
}

} // verus!
