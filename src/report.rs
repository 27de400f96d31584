use vstd::prelude::*;

use crate::analyzer::first_occurrence;
use crate::graph::views;
use crate::text::{contains_str, occurs_in};

verus! {

/// The separator between the nodes of a cycle in a report line.
pub open spec fn arrow() -> Seq<char> {
    " -> "@
}

/// The elements of `c` with `sep` between each two.
pub open spec fn joined(c: Seq<Seq<char>>, sep: Seq<char>) -> Seq<char>
    decreases c.len(),
{
    if c.len() == 0 {
        Seq::empty()
    } else if c.len() == 1 {
        c[0]
    } else {
        joined(c.drop_last(), sep) + sep + c.last()
    }
}

/// The pieces of `s` between the occurrences of `sep`, found left to right
/// without overlap.
pub open spec fn split_seq(s: Seq<char>, sep: Seq<char>) -> Seq<Seq<char>>
    recommends
        sep.len() > 0,
    decreases s.len(),
{
    if sep.len() > 0 && exists|i: int| first_occurrence(sep, s, i) {
        let i = choose|i: int| first_occurrence(sep, s, i);
        seq![s.subrange(0, i)] + split_seq(s.subrange(i + sep.len(), s.len() as int), sep)
    } else {
        seq![s]
    }
}

/// The cycles that the lines `lines` of a report hold: each line with the
/// separator, split at it; other lines are skipped.
pub open spec fn cycles_of_lines(lines: Seq<Seq<char>>) -> Seq<Seq<Seq<char>>>
    decreases lines.len(),
{
    if lines.len() == 0 {
        Seq::empty()
    } else {
        let rest = cycles_of_lines(lines.drop_last());
        let l = lines.last();
        if occurs_in(arrow(), l) {
            rest.push(split_seq(l, arrow()))
        } else {
            rest
        }
    }
}

/// The views of a list of cycles.
pub open spec fn cycle_views(cs: Seq<Vec<String>>) -> Seq<Seq<Seq<char>>> {
    cs.map_values(|c: Vec<String>| views(c@))
}

/// Relies on `str::split`: the pieces between the non-overlapping
/// occurrences of `sep`, left to right.
#[verifier::external_body]
fn split(s: &str, sep: &str) -> (r: Vec<String>)
    requires
        sep@.len() > 0,
    ensures
        views(r@) == split_seq(s@, sep@),
{
    s.split(sep).map(|x| x.to_string()).collect()
}

/// Relies on `join` of a slice of strings: the elements with `sep` between
/// each two.
#[verifier::external_body]
fn join(c: &Vec<String>, sep: &str) -> (r: String)
    ensures
        r@ == joined(views(c@), sep@),
{
    c.join(sep)
}

/// A cycle as a report line: its nodes joined by the separator.
pub fn render_cycle(c: &Vec<String>) -> (r: String)
    ensures
        r@ == joined(views(c@), arrow()),
{
    join(c, " -> ")
}

/// The cycles that a report holds, one for each line with the separator.
pub fn parse_cycle_report(contents: &str) -> (r: Vec<Vec<String>>)
    ensures
        cycle_views(r@) == cycles_of_lines(split_seq(contents@, "\n"@)),
{
    proof {
        reveal_strlit("\n");
        reveal_strlit(" -> ");
    }
    let lines = split(contents, "\n");
    let mut r: Vec<Vec<String>> = Vec::new();
    let mut t: usize = 0;
    while t < lines.len()
        invariant
            t <= lines.len(),
            cycle_views(r@) == cycles_of_lines(views(lines@).subrange(0, t as int)),
        decreases lines.len() - t,
    {
        let ghost l1 = views(lines@).subrange(0, t + 1);
        proof {
            reveal_strlit(" -> ");
            assert(l1.drop_last() =~= views(lines@).subrange(0, t as int));
            assert(l1.last() == lines[t as int]@);
        }
        if contains_str(lines[t].as_str(), " -> ") {
            let c = split(lines[t].as_str(), " -> ");
            let ghost r0 = r@;
            r.push(c);
            proof {
                assert(cycle_views(r@) =~= cycle_views(r0).push(views(c@)));
            }
        }
        t = t + 1;
    }
    proof {
        assert(views(lines@).subrange(0, t as int) =~= views(lines@));
    }
    r
}

/// The watch roots of a comma-separated list.
pub fn watch_roots(paths: &str) -> (r: Vec<String>)
    ensures
        views(r@) == split_seq(paths@, ","@),
{
    proof {
        reveal_strlit(",");
    }
    split(paths, ",")
}

/// `sep` occurs in `x + sep` only where `sep` starts: a node that cannot be
/// confused with the separator.
pub open spec fn separable(x: Seq<char>, sep: Seq<char>) -> bool {
    first_occurrence(sep, x + sep, x.len() as int)
}

proof fn lemma_joined_front(c: Seq<Seq<char>>, sep: Seq<char>)
    requires
        c.len() >= 2,
    ensures
        joined(c, sep) == c[0] + sep + joined(c.drop_first(), sep),
    decreases c.len(),
{
    if c.len() > 2 {
        lemma_joined_front(c.drop_last(), sep);
        assert(c.drop_last().drop_first() =~= c.drop_first().drop_last());
        assert(c.drop_last()[0] == c[0]);
        assert(c.drop_first().last() == c.last());
        assert(joined(c, sep) == joined(c.drop_last(), sep) + sep + c.last());
        assert(joined(c.drop_first(), sep) == joined(c.drop_first().drop_last(), sep) + sep + c.drop_first().last());
        assert(c[0] + sep + joined(c.drop_first(), sep) =~= c[0] + sep + joined(c.drop_last().drop_first(), sep) + sep + c.last());
    } else {
        assert(c.drop_last().len() == 1 && c.drop_last()[0] == c[0]);
        assert(joined(c.drop_last(), sep) == c[0]);
        assert(c.drop_first().len() == 1 && c.drop_first()[0] == c[1]);
        assert(joined(c.drop_first(), sep) == c[1]);
        assert(joined(c, sep) == joined(c.drop_last(), sep) + sep + c.last());
    }
}

/// Splitting a line made of the nodes of `c` joined by `sep` gives `c` back,
/// where no node can be confused with the separator.
pub proof fn lemma_split_joined(c: Seq<Seq<char>>, sep: Seq<char>)
    requires
        c.len() >= 1,
        sep.len() > 0,
        forall|k: int| 0 <= k < c.len() ==> separable(#[trigger] c[k], sep),
    ensures
        split_seq(joined(c, sep), sep) == c,
    decreases c.len(),
{
    let x = c[0];
    let xs = x + sep;
    assert(separable(c[0], sep));
    if c.len() == 1 {
        assert forall|i: int| !first_occurrence(sep, x, i) by {
            if first_occurrence(sep, x, i) {
                assert(xs.subrange(i, i + sep.len()) =~= x.subrange(i, i + sep.len()));
            }
        }
        assert(split_seq(x, sep) == seq![x]);
        assert(seq![x] =~= c);
    } else {
        lemma_joined_front(c, sep);
        let rest = joined(c.drop_first(), sep);
        let s = x + sep + rest;
        assert(s.subrange(x.len() as int, (x.len() + sep.len()) as int) =~= sep);
        assert forall|k: int| 0 <= k < x.len() implies #[trigger] s.subrange(k, k + sep.len()) != sep by {
            assert(s.subrange(k, k + sep.len()) =~= xs.subrange(k, k + sep.len()));
        }
        assert(first_occurrence(sep, s, x.len() as int));
        let i = choose|i: int| first_occurrence(sep, s, i);
        crate::analyzer::lemma_first_occurrence_unique(sep, s, i, x.len() as int);
        assert(s.subrange(0, x.len() as int) =~= x);
        assert(s.subrange((x.len() + sep.len()) as int, s.len() as int) =~= rest);
        assert forall|k: int| 0 <= k < c.drop_first().len() implies separable(#[trigger] c.drop_first()[k], sep) by {
            assert(c.drop_first()[k] == c[k + 1]);
        }
        lemma_split_joined(c.drop_first(), sep);
        assert(seq![x] + c.drop_first() =~= c);
    }
}

/// Rendering a cycle as a report line and splitting the line at the
/// separator gives the cycle back, where no node can be confused with the
/// separator.
pub proof fn lemma_render_round_trip(c: Seq<Seq<char>>)
    requires
        c.len() >= 1,
        forall|k: int| 0 <= k < c.len() ==> separable(#[trigger] c[k], arrow()),
    ensures
        split_seq(joined(c, arrow()), arrow()) == c,
{
    reveal_strlit(" -> ");
    lemma_split_joined(c, arrow());
}

/// The report lines of the cycles `cs`.
pub open spec fn report_lines(cs: Seq<Seq<Seq<char>>>) -> Seq<Seq<char>> {
    cs.map_values(|c: Seq<Seq<char>>| joined(c, arrow()))
}

proof fn lemma_joined_lacks(c: Seq<Seq<char>>, sep: Seq<char>, ch: char)
    requires
        forall|k: int| 0 <= k < c.len() ==> !(#[trigger] c[k]).contains(ch),
        !sep.contains(ch),
    ensures
        !joined(c, sep).contains(ch),
    decreases c.len(),
{
    if c.len() > 1 {
        lemma_joined_lacks(c.drop_last(), sep, ch);
        let a = joined(c.drop_last(), sep);
        let j = a + sep + c.last();
        assert(!c[c.len() - 1].contains(ch));
        assert forall|i: int| 0 <= i < j.len() implies j[i] != ch by {
            if i < a.len() {
                assert(j[i] == a[i]);
            } else if i < a.len() + sep.len() {
                assert(j[i] == sep[i - a.len()]);
            } else {
                assert(j[i] == c.last()[i - a.len() - sep.len()]);
            }
        }
    } else if c.len() == 1 {
        assert(!c[0].contains(ch));
    }
}

proof fn lemma_joined_has_sep(c: Seq<Seq<char>>, sep: Seq<char>)
    requires
        c.len() >= 2,
    ensures
        occurs_in(sep, joined(c, sep)),
{
    let a = joined(c.drop_last(), sep);
    let j = a + sep + c.last();
    assert(j.subrange(a.len() as int, (a.len() + sep.len()) as int) =~= sep);
}

proof fn lemma_lines_cycles(cs: Seq<Seq<Seq<char>>>)
    requires
        forall|k: int| 0 <= k < cs.len() ==> (#[trigger] cs[k]).len() >= 2,
        forall|k: int, i: int| 0 <= k < cs.len() && 0 <= i < cs[k].len() ==> separable(#[trigger] cs[k][i], arrow()),
    ensures
        cycles_of_lines(report_lines(cs)) == cs,
    decreases cs.len(),
{
    if cs.len() > 0 {
        let l = report_lines(cs);
        assert(l.drop_last() =~= report_lines(cs.drop_last()));
        assert forall|k: int, i: int| 0 <= k < cs.drop_last().len() && 0 <= i < cs.drop_last()[k].len() implies separable(#[trigger] cs.drop_last()[k][i], arrow()) by {
            assert(cs.drop_last()[k] == cs[k]);
        }
        assert forall|k: int| 0 <= k < cs.drop_last().len() implies (#[trigger] cs.drop_last()[k]).len() >= 2 by {
            assert(cs.drop_last()[k] == cs[k]);
        }
        lemma_lines_cycles(cs.drop_last());
        let c = cs.last();
        assert(c.len() >= 2);
        assert(l.last() == joined(c, arrow()));
        lemma_joined_has_sep(c, arrow());
        assert forall|i: int| 0 <= i < c.len() implies separable(#[trigger] c[i], arrow()) by {
            assert(separable(cs[cs.len() - 1][i], arrow()));
        }
        reveal_strlit(" -> ");
        lemma_render_round_trip(c);
        assert(cs.drop_last().push(c) =~= cs);
    }
}

/// Rendering cycles as report lines joined by newlines and parsing the
/// report gives the cycles back, in order, where each cycle has at least two
/// nodes and no node holds a newline or can be confused with the separator.
pub proof fn lemma_report_round_trip(cs: Seq<Seq<Seq<char>>>)
    requires
        forall|k: int| 0 <= k < cs.len() ==> (#[trigger] cs[k]).len() >= 2,
        forall|k: int, i: int|
            0 <= k < cs.len() && 0 <= i < cs[k].len() ==> separable(#[trigger] cs[k][i], arrow()) && !cs[k][i].contains('\n'),
    ensures
        cycles_of_lines(split_seq(joined(report_lines(cs), "\n"@), "\n"@)) == cs,
{
    reveal_strlit("\n");
    reveal_strlit(" -> ");
    let l = report_lines(cs);
    let nl = "\n"@;
    assert(nl =~= seq!['\n']);
    assert(!arrow().contains('\n')) by {
        assert(arrow() =~= seq![' ', '-', '>', ' ']);
    }
    lemma_lines_cycles(cs);
    if cs.len() == 0 {
        assert(joined(l, nl) =~= Seq::<char>::empty());
        assert forall|i: int| !first_occurrence(nl, Seq::<char>::empty(), i) by {}
        assert(split_seq(Seq::<char>::empty(), nl) == seq![Seq::<char>::empty()]);
        assert(!occurs_in(arrow(), Seq::<char>::empty()));
        assert(seq![Seq::<char>::empty()].drop_last() =~= Seq::<Seq<char>>::empty());
        assert(cs =~= Seq::<Seq<Seq<char>>>::empty());
        let one = seq![Seq::<char>::empty()];
        assert(one.drop_last() =~= Seq::<Seq<char>>::empty());
        assert(one.last() == Seq::<char>::empty());
        assert(cycles_of_lines(Seq::<Seq<char>>::empty()) == Seq::<Seq<Seq<char>>>::empty());
        assert(arrow().len() == 4);
        assert(!occurs_in(arrow(), one.last()));
        assert(cycles_of_lines(one) == cycles_of_lines(one.drop_last()));
        assert(cycles_of_lines(one) == Seq::<Seq<Seq<char>>>::empty());
        assert(joined(l, nl) == Seq::<char>::empty());
    } else {
        assert forall|k: int| 0 <= k < l.len() implies separable(#[trigger] l[k], nl) by {
            let c = cs[k];
            assert forall|i: int| 0 <= i < c.len() implies !(#[trigger] c[i]).contains('\n') by {
                assert(!cs[k][i].contains('\n'));
            }
            lemma_joined_lacks(c, arrow(), '\n');
            let x = l[k];
            let xs = x + nl;
            assert(xs.subrange(x.len() as int, (x.len() + 1) as int) =~= nl);
            assert forall|j: int| 0 <= j < x.len() implies #[trigger] xs.subrange(j, j + nl.len()) != nl by {
                assert(xs.subrange(j, j + 1)[0] == x[j]);
            }
        }
        lemma_split_joined(l, nl);
        assert(split_seq(joined(l, nl), nl) == l);
        assert(cycles_of_lines(l) == cs);
    }
}

} // verus!
