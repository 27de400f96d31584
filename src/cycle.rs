use vstd::prelude::*;

use crate::graph::{has_edge_in, views, Graph};
use crate::order::{lemma_lex_irreflexive, lemma_lex_total, lemma_lex_transitive, lex_lt, str_less};

verus! {

/// `m` is the first position of a least node of `c`.
pub open spec fn is_first_min(c: Seq<Seq<char>>, m: int) -> bool {
    &&& 0 <= m < c.len()
    &&& forall|k: int| 0 <= k < c.len() ==> !lex_lt(#[trigger] c[k], c[m])
    &&& forall|k: int| 0 <= k < m ==> #[trigger] c[k] != c[m]
}

/// Position `x` of `c` rotated to start at `m`, as a position of `c`.
pub open spec fn rot_idx(n: int, m: int, x: int) -> int {
    if m + x < n {
        m + x
    } else {
        m + x - n
    }
}

/// `c` rotated so that it starts at position `m`.
pub open spec fn rotate<A>(c: Seq<A>, m: int) -> Seq<A> {
    c.subrange(m, c.len() as int) + c.subrange(0, m)
}

/// The rotation of `c` that starts at its first least node.
pub open spec fn canonical(c: Seq<Seq<char>>) -> Seq<Seq<char>> {
    if c.len() == 0 {
        c
    } else {
        rotate(c, choose|m: int| is_first_min(c, m))
    }
}

/// Every node of `c` has an edge in `g` to the next one, and the last to the first.
pub open spec fn valid_cycle(g: Map<Seq<char>, Set<Seq<char>>>, c: Seq<Seq<char>>) -> bool {
    forall|k: int| 0 <= k < c.len() ==> #[trigger] step_ok(g, c, k)
}

/// The node at position `k` of `c` has an edge to the next one, circularly.
pub open spec fn step_ok(g: Map<Seq<char>, Set<Seq<char>>>, c: Seq<Seq<char>>, k: int) -> bool {
    has_edge_in(g, c[k], c[rot_idx(c.len() as int, k, 1)])
}

/// Length of the cycle of length `n` shortened by an edge from position `i` to `j`.
pub open spec fn size_of(n: int, i: int, j: int) -> int {
    if j > i {
        n - (j - i - 1)
    } else {
        i - j + 1
    }
}

/// The nodes that remain when an edge from position `i` to position `j` is
/// taken: a shortcut where `i < j`, a contained sub-cycle otherwise.
pub open spec fn reduced(c: Seq<Seq<char>>, i: int, j: int) -> Seq<Seq<char>> {
    if i < j {
        c.subrange(0, i + 1) + c.subrange(j, c.len() as int)
    } else {
        c.subrange(j, i + 1)
    }
}

/// An edge of `g` from position `i` of `c` to a position `j` other than
/// `i` and `i + 1`.
pub open spec fn is_shortcut(g: Map<Seq<char>, Set<Seq<char>>>, c: Seq<Seq<char>>, i: int, j: int) -> bool {
    &&& 0 <= i < c.len()
    &&& 0 <= j < c.len()
    &&& j != i
    &&& j != i + 1
    &&& has_edge_in(g, c[i], c[j])
}

/// Pair `(i1, j1)` comes before `(i2, j2)` in row-major order.
pub open spec fn pair_before(i1: int, j1: int, i2: int, j2: int) -> bool {
    i1 < i2 || (i1 == i2 && j1 < j2)
}

/// `(i, j)` is the first shortcut, in row-major order, among those that
/// leave the fewest nodes.
pub open spec fn is_best(g: Map<Seq<char>, Set<Seq<char>>>, c: Seq<Seq<char>>, i: int, j: int) -> bool {
    &&& is_shortcut(g, c, i, j)
    &&& forall|i2: int, j2: int| #[trigger] is_shortcut(g, c, i2, j2) ==> {
        &&& size_of(c.len() as int, i, j) <= size_of(c.len() as int, i2, j2)
        &&& (pair_before(i2, j2, i, j) ==> size_of(c.len() as int, i, j) < size_of(c.len() as int, i2, j2))
    }
}

/// `c` with its best shortcut taken once, canonicalized; `c` itself where
/// it has none.
pub open spec fn minimized(g: Map<Seq<char>, Set<Seq<char>>>, c: Seq<Seq<char>>) -> Seq<Seq<char>> {
    if exists|i: int, j: int| is_shortcut(g, c, i, j) {
        let (i, j) = choose|i: int, j: int| is_best(g, c, i, j);
        canonical(reduced(c, i, j))
    } else {
        c
    }
}

pub proof fn lemma_rotate_index<A>(c: Seq<A>, m: int, x: int)
    requires
        0 <= m < c.len(),
        0 <= x < c.len(),
    ensures
        rotate(c, m).len() == c.len(),
        rotate(c, m)[x] == c[rot_idx(c.len() as int, m, x)],
{
}

pub proof fn lemma_first_min_unique(c: Seq<Seq<char>>, m1: int, m2: int)
    requires
        is_first_min(c, m1),
        is_first_min(c, m2),
    ensures
        m1 == m2,
{
    lemma_lex_total(c[m1], c[m2]);
}

/// The canonical form is a rotation at the first least node.
pub proof fn lemma_canonical_at(c: Seq<Seq<char>>, m: int)
    requires
        is_first_min(c, m),
    ensures
        canonical(c) == rotate(c, m),
{
    let m2 = choose|m2: int| is_first_min(c, m2);
    lemma_first_min_unique(c, m, m2);
}

/// Rotates `c` so that it starts at its least node, the first one of them
/// where the least node occurs more than once.
pub fn canonical_cycle(c: &Vec<String>) -> (r: Vec<String>)
    requires
        c.len() > 0,
    ensures
        views(r@) == canonical(views(c@)),
{
    let ghost cv = views(c@);
    let mut m: usize = 0;
    let mut k: usize = 1;
    proof {
        lemma_lex_irreflexive(cv[0]);
    }
    while k < c.len()
        invariant
            cv == views(c@),
            1 <= k <= c.len(),
            m < k,
            forall|t: int| 0 <= t < k ==> !lex_lt(#[trigger] cv[t], cv[m as int]),
            forall|t: int| 0 <= t < m ==> #[trigger] cv[t] != cv[m as int],
        decreases c.len() - k,
    {
        if str_less(&c[k], &c[m]) {
            proof {
                assert forall|t: int| 0 <= t < k + 1 implies !lex_lt(#[trigger] cv[t], cv[k as int]) by {
                    if t < k && lex_lt(cv[t], cv[k as int]) {
                        lemma_lex_transitive(cv[t], cv[k as int], cv[m as int]);
                    }
                    if t == k {
                        lemma_lex_irreflexive(cv[t]);
                    }
                }
            }
            m = k;
        } else {
            proof {
                assert(!lex_lt(cv[k as int], cv[m as int]));
            }
        }
        k = k + 1;
    }
    let mut r: Vec<String> = Vec::new();
    push_range(&mut r, c, m, c.len());
    push_range(&mut r, c, 0, m);
    proof {
        assert(views(r@) =~= rotate(cv, m as int));
    }
    proof {
        assert(is_first_min(cv, m as int));
        lemma_canonical_at(cv, m as int);
    }
    r
}

/// The length of a cycle of length `c_len` shortened by an edge from
/// position `i` to position `j`.
pub fn cycle_size(c_len: usize, i: usize, j: usize) -> (r: usize)
    requires
        i < c_len,
        j < c_len,
    ensures
        r == size_of(c_len as int, i as int, j as int),
{
    if j > i {
        c_len - (j - i - 1)
    } else {
        i - j + 1
    }
}

/// The canonical cycle that remains of `c` when the edge from position `i`
/// to position `j` is taken.
pub fn sub_cycle(c: &Vec<String>, i: usize, j: usize) -> (r: Vec<String>)
    requires
        i < c.len(),
        j < c.len(),
    ensures
        views(r@) == canonical(reduced(views(c@), i as int, j as int)),
        r.len() == size_of(c.len() as int, i as int, j as int),
{
    let ghost cv = views(c@);
    let mut v: Vec<String> = Vec::new();
    if i < j {
        push_range(&mut v, c, 0, i + 1);
        push_range(&mut v, c, j, c.len());
    } else {
        push_range(&mut v, c, j, i + 1);
    }
    proof {
        assert(views(v@) =~= reduced(cv, i as int, j as int));
    }
    let r = canonical_cycle(&v);
    proof {
        lemma_canonical_len(views(v@));
    }
    r
}

pub proof fn lemma_canonical_len(c: Seq<Seq<char>>)
    ensures
        canonical(c).len() == c.len(),
{
    if c.len() > 0 {
        lemma_first_min_exists(c);
    }
}

/// Every nonempty sequence has a first least node.
pub proof fn lemma_first_min_exists(c: Seq<Seq<char>>)
    requires
        c.len() > 0,
    ensures
        exists|m: int| is_first_min(c, m),
    decreases c.len(),
{
    if c.len() == 1 {
        lemma_lex_irreflexive(c[0]);
        assert(is_first_min(c, 0));
    } else {
        let p = c.drop_last();
        lemma_first_min_exists(p);
        let m = choose|m: int| is_first_min(p, m);
        let l = c.len() - 1;
        if lex_lt(c[l], c[m]) {
            assert forall|t: int| 0 <= t < c.len() implies !lex_lt(#[trigger] c[t], c[l]) by {
                if t < l && lex_lt(c[t], c[l]) {
                    assert(p[t] == c[t]);
                    lemma_lex_transitive(c[t], c[l], c[m]);
                }
                if t == l {
                    lemma_lex_irreflexive(c[t]);
                }
            }
            assert forall|t: int| 0 <= t < l implies #[trigger] c[t] != c[l] by {
                assert(p[t] == c[t]);
            }
            assert(is_first_min(c, l));
        } else {
            assert forall|t: int| 0 <= t < c.len() implies !lex_lt(#[trigger] c[t], c[m]) by {
                if t < l {
                    assert(p[t] == c[t]);
                }
            }
            assert forall|t: int| 0 <= t < m implies #[trigger] c[t] != c[m] by {
                assert(p[t] == c[t]);
            }
            assert(is_first_min(c, m));
        }
    }
}

/// What a scan of the pairs before `(i, j)` has kept: the best shortcut among
/// them, with its size.
pub open spec fn scan_inv(
    g: Map<Seq<char>, Set<Seq<char>>>,
    c: Seq<Seq<char>>,
    best: Option<(usize, usize, usize)>,
    i: int,
    j: int,
) -> bool {
    match best {
        None => forall|i2: int, j2: int| #[trigger] is_shortcut(g, c, i2, j2) ==> !pair_before(i2, j2, i, j),
        Some((bi, bj, bs)) => {
            &&& is_shortcut(g, c, bi as int, bj as int)
            &&& pair_before(bi as int, bj as int, i, j)
            &&& bs == size_of(c.len() as int, bi as int, bj as int)
            &&& forall|i2: int, j2: int| #[trigger] is_shortcut(g, c, i2, j2) && pair_before(i2, j2, i, j) ==> {
                &&& bs <= size_of(c.len() as int, i2, j2)
                &&& (pair_before(i2, j2, bi as int, bj as int) ==> bs < size_of(c.len() as int, i2, j2))
            }
        },
    }
}

pub proof fn lemma_best_unique(g: Map<Seq<char>, Set<Seq<char>>>, c: Seq<Seq<char>>, i1: int, j1: int, i2: int, j2: int)
    requires
        is_best(g, c, i1, j1),
        is_best(g, c, i2, j2),
    ensures
        i1 == i2 && j1 == j2,
{
    assert(is_shortcut(g, c, i1, j1));
    assert(is_shortcut(g, c, i2, j2));
}

/// Shortens `cycle` once by its best shortcut in `graph`: of the edges from
/// a position `i` to a position `j` other than `i` and `i + 1`, the first in
/// row-major order among those that leave the fewest nodes.
pub fn minimize_cycle(graph: &Graph, cycle: Vec<String>) -> (r: Vec<String>)
    requires
        graph.wf(),
    ensures
        views(r@) == minimized(graph@, views(cycle@)),
        r.len() <= cycle.len(),
        valid_cycle(graph@, views(cycle@)) ==> valid_cycle(graph@, views(r@)),
{
    proof {
        if valid_cycle(graph@, views(cycle@)) {
            lemma_minimized_valid(graph@, views(cycle@));
        }
    }
    let ghost g = graph@;
    let ghost cv = views(cycle@);
    let n = cycle.len();
    let mut best: Option<(usize, usize, usize)> = None;
    let mut i: usize = 0;
    while i < n
        invariant
            n == cycle.len(),
            cv == views(cycle@),
            g == graph@,
            graph.wf(),
            i <= n,
            scan_inv(g, cv, best, i as int, 0),
        decreases n - i,
    {
        let mut j: usize = 0;
        while j < n
            invariant
                n == cycle.len(),
                cv == views(cycle@),
                g == graph@,
                graph.wf(),
                i < n,
                j <= n,
                scan_inv(g, cv, best, i as int, j as int),
            decreases n - j,
        {
            if j != i && j != i + 1 && graph.has_edge(&cycle[i], &cycle[j]) {
                let size = cycle_size(n, i, j);
                proof {
                    assert(is_shortcut(g, cv, i as int, j as int));
                }
                match best {
                    None => {
                        best = Some((i, j, size));
                    },
                    Some((_, _, bs)) => {
                        if size < bs {
                            best = Some((i, j, size));
                        }
                    },
                }
            } else {
                proof {
                    assert(!is_shortcut(g, cv, i as int, j as int));
                }
            }
            j = j + 1;
        }
        i = i + 1;
    }
    match best {
        None => {
            proof {
                assert(!exists|i2: int, j2: int| is_shortcut(g, cv, i2, j2));
            }
            cycle
        },
        Some((bi, bj, _)) => {
            proof {
                assert(is_best(g, cv, bi as int, bj as int));
                let (ci, cj) = choose|i2: int, j2: int| is_best(g, cv, i2, j2);
                lemma_best_unique(g, cv, bi as int, bj as int, ci, cj);
            }
            sub_cycle(&cycle, bi, bj)
        },
    }
}

/// Canonicalizing a canonical cycle changes nothing.
pub proof fn lemma_canonical_idempotent(c: Seq<Seq<char>>)
    ensures
        canonical(canonical(c)) == canonical(c),
{
    if c.len() > 0 {
        lemma_first_min_exists(c);
        let m = choose|m: int| is_first_min(c, m);
        lemma_canonical_at(c, m);
        let r = rotate(c, m);
        lemma_rotate_index(c, m, 0);
        assert forall|k: int| 0 <= k < r.len() implies !lex_lt(#[trigger] r[k], r[0]) by {
            lemma_rotate_index(c, m, k);
        }
        assert(is_first_min(r, 0));
        lemma_canonical_at(r, 0);
        assert(rotate(r, 0) =~= r);
    }
}

/// All rotations of a cycle of distinct nodes have the same canonical form.
pub proof fn lemma_canonical_rotation(c: Seq<Seq<char>>, s: int)
    requires
        c.no_duplicates(),
        0 <= s < c.len(),
    ensures
        canonical(rotate(c, s)) == canonical(c),
{
    let n = c.len() as int;
    lemma_first_min_exists(c);
    let m = choose|m: int| is_first_min(c, m);
    lemma_canonical_at(c, m);
    let rc = rotate(c, s);
    let p = if m >= s { m - s } else { m - s + n };
    lemma_rotate_index(c, s, p);
    assert forall|k: int| 0 <= k < n implies !lex_lt(#[trigger] rc[k], rc[p]) by {
        lemma_rotate_index(c, s, k);
    }
    assert forall|k: int| 0 <= k < p implies #[trigger] rc[k] != rc[p] by {
        lemma_rotate_index(c, s, k);
    }
    assert(is_first_min(rc, p));
    lemma_canonical_at(rc, p);
    assert forall|x: int| 0 <= x < n implies rotate(rc, p)[x] == rotate(c, m)[x] by {
        lemma_rotate_index(rc, p, x);
        lemma_rotate_index(c, s, rot_idx(n, p, x));
        lemma_rotate_index(c, m, x);
    }
    assert(rotate(rc, p) =~= rotate(c, m));
}

/// A rotation of a valid cycle is valid.
pub proof fn lemma_rotate_valid(g: Map<Seq<char>, Set<Seq<char>>>, c: Seq<Seq<char>>, m: int)
    requires
        valid_cycle(g, c),
        0 <= m < c.len(),
    ensures
        valid_cycle(g, rotate(c, m)),
{
    let n = c.len() as int;
    let r = rotate(c, m);
    assert forall|k: int| 0 <= k < r.len() implies #[trigger] step_ok(g, r, k) by {
        lemma_rotate_index(c, m, k);
        lemma_rotate_index(c, m, rot_idx(n, k, 1));
        assert(step_ok(g, c, rot_idx(n, m, k)));
    }
}

/// The canonical form of a valid cycle is valid.
pub proof fn lemma_canonical_valid(g: Map<Seq<char>, Set<Seq<char>>>, c: Seq<Seq<char>>)
    requires
        valid_cycle(g, c),
    ensures
        valid_cycle(g, canonical(c)),
{
    if c.len() > 0 {
        lemma_first_min_exists(c);
        let m = choose|m: int| is_first_min(c, m);
        lemma_rotate_valid(g, c, m);
    }
}

/// Taking a shortcut of a valid cycle leaves a valid cycle.
pub proof fn lemma_reduced_valid(g: Map<Seq<char>, Set<Seq<char>>>, c: Seq<Seq<char>>, i: int, j: int)
    requires
        valid_cycle(g, c),
        is_shortcut(g, c, i, j),
    ensures
        valid_cycle(g, reduced(c, i, j)),
{
    let n = c.len() as int;
    let r = reduced(c, i, j);
    let l = r.len() as int;
    if i < j {
        assert forall|k: int| 0 <= k < l implies #[trigger] step_ok(g, r, k) by {
            if k < i {
                assert(r[k] == c[k] && r[k + 1] == c[k + 1]);
                assert(step_ok(g, c, k));
            } else if k == i {
                assert(r[k] == c[i] && r[k + 1] == c[j]);
            } else if k < l - 1 {
                let t = j + k - i - 1;
                assert(r[k] == c[t] && r[k + 1] == c[t + 1]);
                assert(step_ok(g, c, t));
            } else {
                assert(r[k] == c[n - 1] && r[0] == c[0]);
                assert(step_ok(g, c, n - 1));
            }
        }
    } else {
        assert forall|k: int| 0 <= k < l implies #[trigger] step_ok(g, r, k) by {
            if k < l - 1 {
                let t = j + k;
                assert(r[k] == c[t] && r[k + 1] == c[t + 1]);
                assert(step_ok(g, c, t));
            } else {
                assert(r[k] == c[i] && r[0] == c[j]);
            }
        }
    }
}

/// Minimizing a valid cycle leaves a valid cycle.
pub proof fn lemma_minimized_valid(g: Map<Seq<char>, Set<Seq<char>>>, c: Seq<Seq<char>>)
    requires
        valid_cycle(g, c),
    ensures
        valid_cycle(g, minimized(g, c)),
{
    if exists|i: int, j: int| is_shortcut(g, c, i, j) {
        lemma_best_exists(g, c);
        let (i, j) = choose|i: int, j: int| is_best(g, c, i, j);
        lemma_reduced_valid(g, c, i, j);
        lemma_canonical_valid(g, reduced(c, i, j));
    }
}

/// Minimizing never lengthens a cycle.
pub proof fn lemma_minimized_len(g: Map<Seq<char>, Set<Seq<char>>>, c: Seq<Seq<char>>)
    ensures
        minimized(g, c).len() <= c.len(),
{
    if exists|i: int, j: int| is_shortcut(g, c, i, j) {
        lemma_best_exists(g, c);
        let (i, j) = choose|i: int, j: int| is_best(g, c, i, j);
        lemma_canonical_len(reduced(c, i, j));
    }
}

/// Where a cycle has a shortcut, it has a best one.
pub proof fn lemma_best_exists(g: Map<Seq<char>, Set<Seq<char>>>, c: Seq<Seq<char>>)
    requires
        exists|i: int, j: int| is_shortcut(g, c, i, j),
    ensures
        exists|i: int, j: int| is_best(g, c, i, j),
{
    let n = c.len() as int;
    let (i0, j0) = choose|i: int, j: int| is_shortcut(g, c, i, j);
    let (i1, j1) = lemma_least(g, c, n, size_of(n, i0, j0));
    assert(i1 * n + j1 < n * n) by (nonlinear_arith)
        requires
            0 <= i1 < n,
            0 <= j1 < n,
    ;
    let (bi, bj) = lemma_first_with_size(g, c, n, size_of(n, i1, j1), n * n);
    assert(is_best(g, c, bi, bj));
}

/// A shortcut of least size, given one of size `s`.
proof fn lemma_least(g: Map<Seq<char>, Set<Seq<char>>>, c: Seq<Seq<char>>, n: int, s: int) -> (r: (int, int))
    requires
        n == c.len(),
        exists|i: int, j: int| is_shortcut(g, c, i, j) && size_of(n, i, j) == s,
    ensures
        is_shortcut(g, c, r.0, r.1),
        forall|i: int, j: int| is_shortcut(g, c, i, j) ==> size_of(n, r.0, r.1) <= size_of(n, i, j),
    decreases s,
{
    let (i, j) = choose|i: int, j: int| is_shortcut(g, c, i, j) && size_of(n, i, j) == s;
    if exists|i2: int, j2: int| is_shortcut(g, c, i2, j2) && size_of(n, i2, j2) < s {
        let (i2, j2) = choose|i2: int, j2: int| is_shortcut(g, c, i2, j2) && size_of(n, i2, j2) < s;
        assert(size_of(n, i2, j2) >= 1);
        lemma_least(g, c, n, size_of(n, i2, j2))
    } else {
        (i, j)
    }
}

/// The first pair, in row-major order, among the shortcuts of the least size
/// `s`, found among the first `bound` positions.
proof fn lemma_first_with_size(g: Map<Seq<char>, Set<Seq<char>>>, c: Seq<Seq<char>>, n: int, s: int, bound: int) -> (r: (int, int))
    requires
        n == c.len(),
        exists|i: int, j: int| is_shortcut(g, c, i, j) && size_of(n, i, j) == s && i * n + j < bound,
        forall|i: int, j: int| is_shortcut(g, c, i, j) ==> s <= size_of(n, i, j),
    ensures
        is_best(g, c, r.0, r.1),
    decreases bound,
{
    let (i, j) = choose|i: int, j: int| is_shortcut(g, c, i, j) && size_of(n, i, j) == s && i * n + j < bound;
    if exists|i2: int, j2: int| is_shortcut(g, c, i2, j2) && size_of(n, i2, j2) == s && i2 * n + j2 < i * n + j {
        assert(i * n + j >= 0) by (nonlinear_arith)
            requires
                0 <= i < n,
                0 <= j < n,
        ;
        lemma_first_with_size(g, c, n, s, i * n + j)
    } else {
        assert forall|i2: int, j2: int| #[trigger] is_shortcut(g, c, i2, j2) && pair_before(i2, j2, i, j)
            implies s < size_of(n, i2, j2) by {
            assert(i2 * n + j2 < i * n + j) by (nonlinear_arith)
                requires
                    0 <= i2 < n,
                    0 <= j2 < n,
                    0 <= i < n,
                    0 <= j < n,
                    i2 < i || (i2 == i && j2 < j),
            ;
        }
        (i, j)
    }
}

/// Minimizing a canonical cycle leaves a canonical cycle.
pub proof fn lemma_minimized_canonical(g: Map<Seq<char>, Set<Seq<char>>>, c: Seq<Seq<char>>)
    requires
        canonical(c) == c,
    ensures
        canonical(minimized(g, c)) == minimized(g, c),
{
    if exists|i: int, j: int| is_shortcut(g, c, i, j) {
        let (i, j) = choose|i: int, j: int| is_best(g, c, i, j);
        lemma_canonical_idempotent(reduced(c, i, j));
    }
}

/// Minimizing a nonempty cycle leaves a nonempty cycle.
pub proof fn lemma_minimized_nonempty(g: Map<Seq<char>, Set<Seq<char>>>, c: Seq<Seq<char>>)
    requires
        c.len() > 0,
    ensures
        minimized(g, c).len() > 0,
{
    if exists|i: int, j: int| is_shortcut(g, c, i, j) {
        lemma_best_exists(g, c);
        let (i, j) = choose|i: int, j: int| is_best(g, c, i, j);
        lemma_canonical_len(reduced(c, i, j));
    }
}

/// A rotation of a cycle of distinct nodes has distinct nodes.
pub proof fn lemma_rotate_distinct(c: Seq<Seq<char>>, m: int)
    requires
        c.no_duplicates(),
        0 <= m < c.len(),
    ensures
        rotate(c, m).no_duplicates(),
{
    let r = rotate(c, m);
    assert forall|a: int, b: int| 0 <= a < r.len() && 0 <= b < r.len() && a != b implies r[a] != r[b] by {
        lemma_rotate_index(c, m, a);
        lemma_rotate_index(c, m, b);
    }
}

/// The canonical form of a cycle of distinct nodes has distinct nodes.
pub proof fn lemma_canonical_distinct(c: Seq<Seq<char>>)
    requires
        c.no_duplicates(),
    ensures
        canonical(c).no_duplicates(),
{
    if c.len() > 0 {
        lemma_first_min_exists(c);
        let m = choose|m: int| is_first_min(c, m);
        lemma_rotate_distinct(c, m);
    }
}

/// Minimizing a cycle of distinct nodes leaves a cycle of distinct nodes.
pub proof fn lemma_minimized_distinct(g: Map<Seq<char>, Set<Seq<char>>>, c: Seq<Seq<char>>)
    requires
        c.no_duplicates(),
    ensures
        minimized(g, c).no_duplicates(),
{
    if exists|i: int, j: int| is_shortcut(g, c, i, j) {
        lemma_best_exists(g, c);
        let (i, j) = choose|i: int, j: int| is_best(g, c, i, j);
        let r = reduced(c, i, j);
        assert forall|a: int, b: int| 0 <= a < r.len() && 0 <= b < r.len() && a != b implies r[a] != r[b] by {
            if i < j {
                let a0 = if a <= i { a } else { a - (i + 1) + j };
                let b0 = if b <= i { b } else { b - (i + 1) + j };
                assert(r[a] == c[a0] && r[b] == c[b0]);
            } else {
                assert(r[a] == c[j + a] && r[b] == c[j + b]);
            }
        }
        lemma_canonical_distinct(r);
    }
}

/// Appends `c[lo..hi]` to `r`.
fn push_range(r: &mut Vec<String>, c: &Vec<String>, lo: usize, hi: usize)
    requires
        lo <= hi <= c.len(),
    ensures
        views(final(r)@) == views(old(r)@) + views(c@).subrange(lo as int, hi as int),
{
    let ghost r0 = views(r@);
    let mut t: usize = lo;
    while t < hi
        invariant
            lo <= t <= hi <= c.len(),
            views(r@) == r0 + views(c@).subrange(lo as int, t as int),
        decreases hi - t,
    {
        let ghost before = r@;
        r.push(c[t].clone());
        t = t + 1;
        proof {
            assert(r@ == before.push(c[t - 1]));
            assert(views(r@) =~= views(before).push(c[t - 1]@));
            assert(views(r@) =~= r0 + views(c@).subrange(lo as int, t as int));
        }
    }
}

} // verus!
