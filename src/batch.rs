use vstd::prelude::*;

use crate::cycle::{minimize_cycle, minimized, rot_idx};
use crate::detect::{all_false, count_false, lemma_count_false_mark, same_cycle};
use crate::graph::{views, Graph};
use crate::report::cycle_views;

verus! {

/// No two entries of `cs` are equal.
pub open spec fn distinct_cycles(cs: Seq<Seq<Seq<char>>>) -> bool {
    forall|a: int, b: int| 0 <= a < cs.len() && 0 <= b < cs.len() && a != b ==> cs[a] != cs[b]
}

/// The sum of the lengths of the cycles of `cs`.
pub open spec fn total_len(cs: Seq<Seq<Seq<char>>>) -> int
    decreases cs.len(),
{
    if cs.len() == 0 {
        0
    } else {
        total_len(cs.drop_last()) + cs.last().len()
    }
}

/// The length of the longest cycle of `cs`; 0 where there is none.
pub open spec fn longest(cs: Seq<Seq<Seq<char>>>) -> int
    decreases cs.len(),
{
    if cs.len() == 0 {
        0
    } else if longest(cs.drop_last()) < cs.last().len() {
        cs.last().len() as int
    } else {
        longest(cs.drop_last())
    }
}

proof fn lemma_total_len_bound(cs: Seq<Seq<Seq<char>>>, t: int)
    requires
        0 <= t <= cs.len(),
    ensures
        total_len(cs.subrange(0, t)) <= total_len(cs),
        0 <= total_len(cs.subrange(0, t)),
    decreases cs.len(),
{
    if t < cs.len() {
        lemma_total_len_bound(cs.drop_last(), t);
        assert(cs.drop_last().subrange(0, t) =~= cs.subrange(0, t));
    } else {
        assert(cs.subrange(0, t) =~= cs);
    }
    if t > 0 {
        lemma_total_len_nonneg(cs.subrange(0, t));
    }
}

proof fn lemma_total_len_nonneg(cs: Seq<Seq<Seq<char>>>)
    ensures
        total_len(cs) >= 0,
    decreases cs.len(),
{
    if cs.len() > 0 {
        lemma_total_len_nonneg(cs.drop_last());
    }
}

/// The number of cycles, the sum of their lengths, and the longest length.
pub fn cycle_summary(cs: &Vec<Vec<String>>) -> (r: (usize, usize, usize))
    requires
        total_len(cycle_views(cs@)) <= usize::MAX,
    ensures
        r.0 == cs.len(),
        r.1 == total_len(cycle_views(cs@)),
        r.2 == longest(cycle_views(cs@)),
{
    let ghost v = cycle_views(cs@);
    let mut total: usize = 0;
    let mut most: usize = 0;
    let mut t: usize = 0;
    while t < cs.len()
        invariant
            t <= cs.len(),
            v == cycle_views(cs@),
            total_len(v) <= usize::MAX,
            total == total_len(v.subrange(0, t as int)),
            most == longest(v.subrange(0, t as int)),
        decreases cs.len() - t,
    {
        proof {
            let v1 = v.subrange(0, t + 1);
            assert(v1.drop_last() =~= v.subrange(0, t as int));
            assert(v1.last() == views(cs[t as int]@));
            lemma_total_len_bound(v, t + 1);
        }
        total = total + cs[t].len();
        if most < cs[t].len() {
            most = cs[t].len();
        }
        t = t + 1;
    }
    proof {
        assert(v.subrange(0, t as int) =~= v);
    }
    (cs.len(), total, most)
}

/// A copy of the cycle `c`.
fn copy_names(c: &Vec<String>) -> (r: Vec<String>)
    ensures
        views(r@) == views(c@),
{
    let mut r: Vec<String> = Vec::new();
    let mut t: usize = 0;
    while t < c.len()
        invariant
            t <= c.len(),
            r.len() == t,
            forall|u: int| 0 <= u < t ==> r[u]@ == c[u]@,
        decreases c.len() - t,
    {
        r.push(c[t].clone());
        t = t + 1;
    }
    assert(views(r@) =~= views(c@));
    r
}

/// Adds `c` to `cs` unless an equal cycle is there.
fn insert_unique(cs: &mut Vec<Vec<String>>, c: Vec<String>)
    requires
        distinct_cycles(cycle_views(old(cs)@)),
    ensures
        distinct_cycles(cycle_views(final(cs)@)),
        forall|x: Seq<Seq<char>>|
            cycle_views(final(cs)@).contains(x) <==> (cycle_views(old(cs)@).contains(x) || x == views(c@)),
{
    let ghost v0 = cycle_views(cs@);
    let mut k: usize = 0;
    while k < cs.len()
        invariant
            k <= cs.len(),
            cs@ == old(cs)@,
            v0 == cycle_views(cs@),
            distinct_cycles(v0),
            forall|t: int| 0 <= t < k ==> views(cs[t]@) != views(c@),
        decreases cs.len() - k,
    {
        if same_cycle(&cs[k], &c) {
            proof {
                assert(v0[k as int] == views(c@));
            }
            return;
        }
        k = k + 1;
    }
    cs.push(c);
    proof {
        let v1 = cycle_views(cs@);
        assert(v1 =~= v0.push(views(c@)));
        assert forall|x: Seq<Seq<char>>| v1.contains(x) <==> (v0.contains(x) || x == views(c@)) by {
            if v1.contains(x) {
                let w = choose|w: int| 0 <= w < v1.len() && v1[w] == x;
                if w < v0.len() {
                    assert(v0[w] == x);
                }
            }
            if v0.contains(x) {
                let w = choose|w: int| 0 <= w < v0.len() && v0[w] == x;
                assert(v1[w] == x);
            }
            if x == views(c@) {
                assert(v1[v0.len() as int] == x);
            }
        }
    }
}

/// Each cycle of `cycles` minimized against `graph`, each distinct result
/// once.
pub fn minimize_cycles(graph: &Graph, cycles: &Vec<Vec<String>>) -> (r: Vec<Vec<String>>)
    requires
        graph.wf(),
    ensures
        distinct_cycles(cycle_views(r@)),
        forall|x: Seq<Seq<char>>|
            cycle_views(r@).contains(x) <==> exists|u: int|
                0 <= u < cycles.len() && x == minimized(graph@, #[trigger] views(cycles[u]@)),
{
    let mut r: Vec<Vec<String>> = Vec::new();
    let mut t: usize = 0;
    while t < cycles.len()
        invariant
            graph.wf(),
            t <= cycles.len(),
            distinct_cycles(cycle_views(r@)),
            forall|x: Seq<Seq<char>>|
                cycle_views(r@).contains(x) <==> exists|u: int|
                    0 <= u < t && x == minimized(graph@, #[trigger] views(cycles[u]@)),
        decreases cycles.len() - t,
    {
        let m = minimize_cycle(graph, copy_names(&cycles[t]));
        let ghost r0 = cycle_views(r@);
        insert_unique(&mut r, m);
        proof {
            assert forall|x: Seq<Seq<char>>|
                cycle_views(r@).contains(x) <==> exists|u: int|
                    0 <= u < t + 1 && x == minimized(graph@, #[trigger] views(cycles[u]@)) by {
                if exists|u: int| 0 <= u < t + 1 && x == minimized(graph@, #[trigger] views(cycles[u]@)) {
                    let u = choose|u: int| 0 <= u < t + 1 && x == minimized(graph@, #[trigger] views(cycles[u]@));
                    if u < t {
                        assert(r0.contains(x));
                    }
                }
            }
        }
        t = t + 1;
    }
    r
}

/// The pairs of each node of `c` with the next one, the last with the first.
pub open spec fn cycle_pairs(c: Seq<Seq<char>>) -> Seq<(Seq<char>, Seq<char>)> {
    Seq::new(c.len(), |i: int| (c[i], c[rot_idx(c.len() as int, i, 1)]))
}

/// The adjacent pairs of all cycles of `cs`, cycle by cycle.
pub open spec fn all_pairs(cs: Seq<Seq<Seq<char>>>) -> Seq<(Seq<char>, Seq<char>)>
    decreases cs.len(),
{
    if cs.len() == 0 {
        Seq::empty()
    } else {
        all_pairs(cs.drop_last()) + cycle_pairs(cs.last())
    }
}

/// The number of times `x` occurs in `s`.
pub open spec fn occurrences(s: Seq<(Seq<char>, Seq<char>)>, x: (Seq<char>, Seq<char>)) -> int
    decreases s.len(),
{
    if s.len() == 0 {
        0
    } else {
        occurrences(s.drop_last(), x) + if s.last() == x {
            1int
        } else {
            0int
        }
    }
}

proof fn lemma_occurrences_bound(s: Seq<(Seq<char>, Seq<char>)>, x: (Seq<char>, Seq<char>))
    ensures
        0 <= occurrences(s, x) <= s.len(),
    decreases s.len(),
{
    if s.len() > 0 {
        lemma_occurrences_bound(s.drop_last(), x);
    }
}

proof fn lemma_all_pairs_len(cs: Seq<Seq<Seq<char>>>)
    ensures
        all_pairs(cs).len() == total_len(cs),
    decreases cs.len(),
{
    if cs.len() > 0 {
        lemma_all_pairs_len(cs.drop_last());
    }
}

/// The position of the pair `(a, b)` among `from` and `to`.
fn find_pair(from: &Vec<String>, to: &Vec<String>, a: &String, b: &String) -> (r: Option<usize>)
    requires
        from.len() == to.len(),
    ensures
        match r {
            Some(k) => k < from.len() && from[k as int]@ == a@ && to[k as int]@ == b@,
            None => forall|u: int| 0 <= u < from.len() ==> (from[u]@, to[u]@) != (a@, b@),
        },
{
    let mut k: usize = 0;
    while k < from.len()
        invariant
            from.len() == to.len(),
            k <= from.len(),
            forall|u: int| 0 <= u < k ==> (from[u]@, to[u]@) != (a@, b@),
        decreases from.len() - k,
    {
        if from[k] == *a && to[k] == *b {
            return Some(k);
        }
        k = k + 1;
    }
    None
}

/// For each edge that the cycles of `cs` take, how many times they take it.
#[verifier::rlimit(40)]
pub fn edge_frequencies(cs: &Vec<Vec<String>>) -> (r: Vec<(String, String, usize)>)
    requires
        total_len(cycle_views(cs@)) <= usize::MAX,
    ensures
        forall|t: int| 0 <= t < r.len() ==> {
            &&& r[t].2 == occurrences(all_pairs(cycle_views(cs@)), (#[trigger] r[t].0@, r[t].1@))
            &&& r[t].2 > 0
        },
        forall|x: (Seq<char>, Seq<char>)| occurrences(all_pairs(cycle_views(cs@)), x) > 0 ==> exists|t: int|
            0 <= t < r.len() && (#[trigger] r[t].0@, r[t].1@) == x,
        forall|a: int, b: int| 0 <= a < r.len() && 0 <= b < r.len() && a != b ==> (r[a].0@, r[a].1@) != (r[b].0@, r[b].1@),
{
    let ghost cv = cycle_views(cs@);
    let mut from: Vec<String> = Vec::new();
    let mut to: Vec<String> = Vec::new();
    let mut counts: Vec<usize> = Vec::new();
    let ghost mut seen: Seq<(Seq<char>, Seq<char>)> = Seq::empty();
    proof {
        lemma_all_pairs_len(cv);
        lemma_total_len_bound(cv, 0);
    }
    let mut t: usize = 0;
    while t < cs.len()
        invariant
            cv == cycle_views(cs@),
            t <= cs.len(),
            all_pairs(cv).len() == total_len(cv) <= usize::MAX,
            seen == all_pairs(cv.subrange(0, t as int)),
            from.len() == to.len() && to.len() == counts.len(),
            forall|k: int| 0 <= k < counts.len() ==> {
                &&& #[trigger] counts[k] == occurrences(seen, (from[k]@, to[k]@))
                &&& counts[k] > 0
            },
            forall|x: (Seq<char>, Seq<char>)| occurrences(seen, x) > 0 ==> exists|k: int|
                0 <= k < counts.len() && (#[trigger] from[k]@, to[k]@) == x,
            forall|a: int, b: int| 0 <= a < counts.len() && 0 <= b < counts.len() && a != b ==> (from[a]@, to[a]@) != (from[b]@, to[b]@),
        decreases cs.len() - t,
    {
        let c = &cs[t];
        let n = c.len();
        let ghost base = seen;
        let ghost cp = cycle_pairs(views(c@));
        proof {
            lemma_total_len_bound(cv, t + 1);
            lemma_all_pairs_len(cv.subrange(0, t + 1));
            let c1 = cv.subrange(0, t + 1);
            assert(c1.drop_last() =~= cv.subrange(0, t as int));
            assert(c1.last() == views(c@));
        }
        let mut i: usize = 0;
        while i < n
            invariant
                cv == cycle_views(cs@),
                t < cs.len(),
                c == &cs[t as int],
                n == c.len(),
                cp == cycle_pairs(views(c@)),
                i <= n,
                base == all_pairs(cv.subrange(0, t as int)),
                all_pairs(cv.subrange(0, t + 1)) == base + cp,
                (base + cp).len() <= usize::MAX,
                seen == base + cp.subrange(0, i as int),
                from.len() == to.len() && to.len() == counts.len(),
                forall|k: int| 0 <= k < counts.len() ==> {
                    &&& #[trigger] counts[k] == occurrences(seen, (from[k]@, to[k]@))
                    &&& counts[k] > 0
                },
                forall|x: (Seq<char>, Seq<char>)| occurrences(seen, x) > 0 ==> exists|k: int|
                    0 <= k < counts.len() && (#[trigger] from[k]@, to[k]@) == x,
                forall|a: int, b: int| 0 <= a < counts.len() && 0 <= b < counts.len() && a != b ==> (from[a]@, to[a]@) != (from[b]@, to[b]@),
            decreases n - i,
        {
            let j: usize = if i + 1 < n { i + 1 } else { 0 };
            let a = &c[i];
            let b = &c[j];
            let ghost p = (a@, b@);
            let ghost seen0 = seen;
            proof {
                assert(cp[i as int] == p);
                assert(base + cp.subrange(0, i + 1) =~= seen0.push(p));
                seen = seen0.push(p);
                assert(seen.drop_last() =~= seen0);
                lemma_occurrences_bound(seen, p);
                assert(seen.len() <= (base + cp).len());
            }
            let found = find_pair(&from, &to, a, b);
            let ghost counts0 = counts@;
            let ghost from0 = from@;
            let ghost to0 = to@;
            let ghost k: int = counts.len() as int;
            if let Some(kk) = found {
                proof {
                    k = kk as int;
                    assert(counts[k] == occurrences(seen0, p));
                }
                counts.set(kk, counts[kk] + 1);
            } else {
                proof {
                    assert(occurrences(seen0, p) == 0) by {
                        lemma_occurrences_bound(seen0, p);
                        if occurrences(seen0, p) > 0 {
                            let k2 = choose|k2: int| 0 <= k2 < counts0.len() && (#[trigger] from[k2]@, to[k2]@) == p;
                        }
                    }
                }
                from.push(a.clone());
                to.push(b.clone());
                counts.push(1);
            }
            proof {
                assert forall|x: (Seq<char>, Seq<char>)| occurrences(seen, x) > 0 implies exists|k2: int|
                    0 <= k2 < counts.len() && (#[trigger] from[k2]@, to[k2]@) == x by {
                    if x != p {
                        assert(occurrences(seen0, x) > 0);
                        let k2 = choose|k2: int| 0 <= k2 < counts0.len() && (from0[k2]@, to0[k2]@) == x;
                        assert(from[k2] == from0[k2] && to[k2] == to0[k2]);
                        assert((from[k2]@, to[k2]@) == x);
                    } else {
                        assert((from[k]@, to[k]@) == x);
                    }
                }
                assert forall|k2: int| 0 <= k2 < counts.len() implies {
                    &&& #[trigger] counts[k2] == occurrences(seen, (from[k2]@, to[k2]@))
                    &&& counts[k2] > 0
                } by {
                    if k2 < counts0.len() {
                        assert(from[k2] == from0[k2] && to[k2] == to0[k2]);
                    }
                }
                assert forall|a2: int, b2: int| 0 <= a2 < counts.len() && 0 <= b2 < counts.len() && a2 != b2 implies (from[a2]@, to[a2]@) != (from[b2]@, to[b2]@) by {
                    if a2 < counts0.len() {
                        assert(from[a2] == from0[a2] && to[a2] == to0[a2]);
                    }
                    if b2 < counts0.len() {
                        assert(from[b2] == from0[b2] && to[b2] == to0[b2]);
                    }
                }
            }
            i = i + 1;
        }
        proof {
            assert(cp.subrange(0, n as int) =~= cp);
            assert(seen == all_pairs(cv.subrange(0, t + 1)));
            assert forall|k2: int| 0 <= k2 < counts.len() implies {
                &&& #[trigger] counts[k2] == occurrences(seen, (from[k2]@, to[k2]@))
                &&& counts[k2] > 0
            } by {}
        }
        t = t + 1;
    }
    proof {
        assert(cv.subrange(0, t as int) =~= cv);
    }
    let mut r: Vec<(String, String, usize)> = Vec::new();
    let mut k: usize = 0;
    while k < counts.len()
        invariant
            cv == cycle_views(cs@),
            seen == all_pairs(cv),
            forall|k2: int| 0 <= k2 < counts.len() ==> {
                &&& #[trigger] counts[k2] == occurrences(seen, (from[k2]@, to[k2]@))
                &&& counts[k2] > 0
            },
            forall|x: (Seq<char>, Seq<char>)| occurrences(seen, x) > 0 ==> exists|k2: int|
                0 <= k2 < counts.len() && (#[trigger] from[k2]@, to[k2]@) == x,
            forall|a: int, b: int| 0 <= a < counts.len() && 0 <= b < counts.len() && a != b ==> (from[a]@, to[a]@) != (from[b]@, to[b]@),
            from.len() == to.len() && to.len() == counts.len(),
            k <= counts.len(),
            r.len() == k,
            forall|u: int| 0 <= u < k ==> #[trigger] r[u].0@ == from[u]@ && r[u].1@ == to[u]@ && r[u].2 == counts[u],
        decreases counts.len() - k,
    {
        let ghost r0 = r@;
        let a = from[k].clone();
        let b = to[k].clone();
        proof {
            assert(a@ == from[k as int]@ && b@ == to[k as int]@);
        }
        let e = (a, b, counts[k]);
        r.push(e);
        proof {
            assert(r[k as int] == e);
            assert forall|u: int| 0 <= u < k + 1 implies r[u].0@ == from[u]@ && r[u].1@ == to[u]@ && r[u].2 == counts[u] by {
                if u < k {
                    assert(r[u] == r0[u]);
                }
            }
        }
        k = k + 1;
    }
    proof {
        assert forall|t2: int| 0 <= t2 < r.len() implies {
            &&& r[t2].2 == occurrences(all_pairs(cv), (#[trigger] r[t2].0@, r[t2].1@))
            &&& r[t2].2 > 0
        } by {
            assert(r[t2].0@ == from[t2]@ && r[t2].1@ == to[t2]@ && r[t2].2 == counts[t2]);
            assert((r[t2].0@, r[t2].1@) == (from[t2]@, to[t2]@));
        }
        assert forall|a: int, b: int| 0 <= a < r.len() && 0 <= b < r.len() && a != b implies (r[a].0@, r[a].1@) != (r[b].0@, r[b].1@) by {
            assert(r[a].0@ == from[a]@ && r[a].1@ == to[a]@);
            assert(r[b].0@ == from[b]@ && r[b].1@ == to[b]@);
        }
        assert forall|x: (Seq<char>, Seq<char>)| occurrences(all_pairs(cv), x) > 0 implies exists|t2: int|
            0 <= t2 < r.len() && (#[trigger] r[t2].0@, r[t2].1@) == x by {
            let k2 = choose|k2: int| 0 <= k2 < counts.len() && (#[trigger] from[k2]@, to[k2]@) == x;
            assert(r[k2].0@ == from[k2]@ && r[k2].1@ == to[k2]@);
            assert((r[k2].0@, r[k2].1@) == x);
        }
    }
    r
}

/// The edge of a frequency entry.
pub open spec fn edge_of(e: (String, String, usize)) -> (Seq<char>, Seq<char>) {
    (e.0@, e.1@)
}

/// `e` is, up to views, an entry of `f`.
pub open spec fn is_entry_of(e: (String, String, usize), f: Seq<(String, String, usize)>) -> bool {
    exists|u: int| 0 <= u < f.len() && edge_of(e) == edge_of(f[u]) && e.2 == f[u].2
}

/// No two entries of `f` are for the same edge.
pub open spec fn distinct_edges(f: Seq<(String, String, usize)>) -> bool {
    forall|a: int, b: int| 0 <= a < f.len() && 0 <= b < f.len() && a != b ==> edge_of(f[a]) != edge_of(f[b])
}

proof fn lemma_some_false(v: Seq<bool>)
    requires
        count_false(v) > 0,
    ensures
        exists|i: int| 0 <= i < v.len() && !v[i],
    decreases v.len(),
{
    if v.len() > 0 && v.last() {
        lemma_some_false(v.drop_last());
        let i = choose|i: int| 0 <= i < v.drop_last().len() && !v.drop_last()[i];
        assert(!v[i]);
    } else if v.len() > 0 {
        assert(!v[v.len() - 1]);
    }
}

proof fn lemma_all_false_count(v: Seq<bool>)
    requires
        forall|i: int| 0 <= i < v.len() ==> !v[i],
    ensures
        count_false(v) == v.len(),
    decreases v.len(),
{
    if v.len() > 0 {
        lemma_all_false_count(v.drop_last());
    }
}

/// The `k` entries of `freqs` with the highest counts, highest first; of
/// equal counts, the earlier entry first.
pub fn top_edges(freqs: &Vec<(String, String, usize)>, k: usize) -> (r: Vec<(String, String, usize)>)
    requires
        distinct_edges(freqs@),
    ensures
        r.len() == if k < freqs.len() { k } else { freqs.len() },
        distinct_edges(r@),
        forall|t: int| 0 <= t < r.len() ==> is_entry_of(#[trigger] r[t], freqs@),
        forall|t: int| 0 <= t < r.len() - 1 ==> r[t].2 >= #[trigger] r[t + 1].2,
        forall|u: int| 0 <= u < freqs.len() && r.len() > 0 && (forall|t: int| 0 <= t < r.len() ==> edge_of(r[t]) != edge_of(#[trigger] freqs[u])) ==> freqs[u].2 <= r[r.len() - 1].2,
{
    let n = freqs.len();
    let want = if k < n { k } else { n };
    let mut taken = all_false(n);
    let mut r: Vec<(String, String, usize)> = Vec::new();
    proof {
        lemma_all_false_count(taken@);
    }
    while r.len() < want
        invariant
            n == freqs.len(),
            want <= n,
            taken.len() == n,
            r.len() <= want,
            count_false(taken@) == n - r.len(),
            distinct_edges(freqs@),
            distinct_edges(r@),
            forall|u: int| 0 <= u < n ==> (taken[u] <==> exists|t: int| 0 <= t < r.len() && edge_of(r[t]) == edge_of(#[trigger] freqs[u])),
            forall|t: int| 0 <= t < r.len() ==> is_entry_of(#[trigger] r[t], freqs@),
            forall|t: int| 0 <= t < r.len() - 1 ==> r[t].2 >= #[trigger] r[t + 1].2,
            forall|u: int| 0 <= u < n && r.len() > 0 && !taken[u] ==> #[trigger] freqs[u].2 <= r[r.len() - 1].2,
        decreases want - r.len(),
    {
        proof {
            lemma_some_false(taken@);
        }
        let mut best: usize = n;
        let mut u: usize = 0;
        while u < n
            invariant
                n == freqs.len(),
                taken.len() == n,
                u <= n,
                exists|i: int| 0 <= i < n && !taken[i],
                best == n || (best < u && !taken[best as int]),
                best == n ==> forall|i: int| 0 <= i < u ==> taken[i],
                best < n ==> forall|i: int| 0 <= i < u && !taken[i] ==> #[trigger] freqs[i].2 <= freqs[best as int].2,
            decreases n - u,
        {
            if !taken[u] && (best == n || freqs[u].2 > freqs[best].2) {
                best = u;
            }
            u = u + 1;
        }
        proof {
            lemma_count_false_mark(taken@, best as int);
        }
        let ghost r0 = r@;
        let ghost taken0 = taken@;
        taken.set(best, true);
        let e = (freqs[best].0.clone(), freqs[best].1.clone(), freqs[best].2);
        r.push(e);
        proof {
            assert(r[r.len() - 1] == e);
            assert(edge_of(e) == edge_of(freqs[best as int]));
            assert forall|u2: int| 0 <= u2 < n implies (taken[u2] <==> exists|t: int| 0 <= t < r.len() && edge_of(r[t]) == edge_of(#[trigger] freqs[u2])) by {
                if u2 != best {
                    assert(edge_of(freqs[u2]) != edge_of(freqs[best as int]));
                    if taken0[u2 as int] {
                        let t = choose|t: int| 0 <= t < r0.len() && edge_of(r0[t]) == edge_of(freqs[u2]);
                        assert(r[t] == r0[t]);
                    }
                    if exists|t: int| 0 <= t < r.len() && edge_of(r[t]) == edge_of(freqs[u2]) {
                        let t = choose|t: int| 0 <= t < r.len() && edge_of(r[t]) == edge_of(freqs[u2]);
                        assert(t < r0.len());
                        assert(r0[t] == r[t]);
                    }
                } else {
                    assert(edge_of(r[r.len() - 1]) == edge_of(freqs[u2]));
                }
            }
            assert forall|a: int, b: int| 0 <= a < r.len() && 0 <= b < r.len() && a != b implies edge_of(r[a]) != edge_of(r[b]) by {
                if a < r0.len() && b < r0.len() {
                    assert(r[a] == r0[a] && r[b] == r0[b]);
                } else if a < r0.len() {
                    assert(r[a] == r0[a]);
                    assert(is_entry_of(r0[a], freqs@));
                    let u2 = choose|u2: int| 0 <= u2 < n && edge_of(r0[a]) == edge_of(freqs[u2]) && r0[a].2 == freqs[u2].2;
                    assert(taken0[u2]);
                } else if b < r0.len() {
                    assert(r[b] == r0[b]);
                    assert(is_entry_of(r0[b], freqs@));
                    let u2 = choose|u2: int| 0 <= u2 < n && edge_of(r0[b]) == edge_of(freqs[u2]) && r0[b].2 == freqs[u2].2;
                    assert(taken0[u2]);
                }
            }
            assert forall|t: int| 0 <= t < r.len() implies is_entry_of(#[trigger] r[t], freqs@) by {
                if t < r0.len() {
                    assert(r[t] == r0[t]);
                } else {
                    assert(edge_of(r[t]) == edge_of(freqs[best as int]) && r[t].2 == freqs[best as int].2);
                }
            }
            assert forall|t: int| 0 <= t < r.len() - 1 implies r[t].2 >= #[trigger] r[t + 1].2 by {
                if t + 1 < r0.len() {
                    assert(r[t] == r0[t] && r[t + 1] == r0[t + 1]);
                } else {
                    assert(r[t] == r0[t]);
                    assert(freqs[best as int].2 <= r0[r0.len() - 1].2);
                }
            }
        }
    }
    r
}

} // verus!
