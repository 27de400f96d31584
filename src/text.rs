use vstd::prelude::*;
use vstd::string::StrSliceExecFns;

verus! {

/// `p` is a prefix of `s`.
pub open spec fn is_prefix(p: Seq<char>, s: Seq<char>) -> bool {
    p.len() <= s.len() && s.subrange(0, p.len() as int) == p
}

/// `p` is a suffix of `s`.
pub open spec fn is_suffix(p: Seq<char>, s: Seq<char>) -> bool {
    p.len() <= s.len() && s.subrange(s.len() - p.len(), s.len() as int) == p
}

/// `p` occurs in `s`.
pub open spec fn occurs_in(p: Seq<char>, s: Seq<char>) -> bool {
    exists|i: int| 0 <= i <= s.len() - p.len() && #[trigger] s.subrange(i, i + p.len()) == p
}

/// Whether `p` occurs in `s` at position `i`.
fn matches_at(s: &str, p: &str, i: usize, ls: usize, lp: usize) -> (r: bool)
    requires
        ls == s@.len(),
        lp == p@.len(),
        i + lp <= ls,
    ensures
        r == (s@.subrange(i as int, i + lp) == p@),
{
    let mut k: usize = 0;
    while k < lp
        invariant
            ls == s@.len(),
            lp == p@.len(),
            i + lp <= ls,
            k <= lp,
            forall|t: int| 0 <= t < k ==> s@[i + t] == p@[t],
        decreases lp - k,
    {
        if s.get_char(i + k) != p.get_char(k) {
            assert(s@.subrange(i as int, i + lp)[k as int] != p@[k as int]);
            return false;
        }
        k = k + 1;
    }
    assert(s@.subrange(i as int, i + lp) =~= p@);
    true
}

/// Whether `p` is a prefix of `s`.
pub fn starts_with(s: &str, p: &str) -> (r: bool)
    ensures
        r == is_prefix(p@, s@),
{
    let ls = s.unicode_len();
    let lp = p.unicode_len();
    if lp > ls {
        return false;
    }
    matches_at(s, p, 0, ls, lp)
}

/// Whether `p` is a suffix of `s`.
pub fn ends_with(s: &str, p: &str) -> (r: bool)
    ensures
        r == is_suffix(p@, s@),
{
    let ls = s.unicode_len();
    let lp = p.unicode_len();
    if lp > ls {
        return false;
    }
    matches_at(s, p, ls - lp, ls, lp)
}

/// Whether `p` occurs in `s`.
pub fn contains_str(s: &str, p: &str) -> (r: bool)
    ensures
        r == occurs_in(p@, s@),
{
    let ls = s.unicode_len();
    let lp = p.unicode_len();
    if lp > ls {
        return false;
    }
    let mut i: usize = 0;
    while i < ls - lp
        invariant
            ls == s@.len(),
            lp == p@.len(),
            lp <= ls,
            i <= ls - lp,
            forall|k: int| 0 <= k < i ==> #[trigger] s@.subrange(k, k + lp) != p@,
        decreases ls - lp - i,
    {
        if matches_at(s, p, i, ls, lp) {
            return true;
        }
        i = i + 1;
    }
    matches_at(s, p, i, ls, lp)
}

/// What follows `p` where `s` starts with it.
pub fn strip_prefix(s: &str, p: &str) -> (r: Option<String>)
    ensures
        r is Some == is_prefix(p@, s@),
        r matches Some(t) ==> t@ == s@.subrange(p@.len() as int, s@.len() as int),
{
    if starts_with(s, p) {
        let ls = s.unicode_len();
        let lp = p.unicode_len();
        Some(s.substring_char(lp, ls).to_owned())
    } else {
        None
    }
}

/// What precedes `p` where `s` ends with it.
pub fn strip_suffix(s: &str, p: &str) -> (r: Option<String>)
    ensures
        r is Some == is_suffix(p@, s@),
        r matches Some(t) ==> t@ == s@.subrange(0, s@.len() - p@.len()),
{
    if ends_with(s, p) {
        let ls = s.unicode_len();
        let lp = p.unicode_len();
        Some(s.substring_char(0, ls - lp).to_owned())
    } else {
        None
    }
}

} // verus!
