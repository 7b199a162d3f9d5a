//! Substring occurrence and leftmost replacement over character sequences.
use vstd::prelude::*;

verus! {

/// `p` occurs in `s` starting at character position `k`.
pub open spec fn occurs_at(s: Seq<char>, p: Seq<char>, k: int) -> bool {
    0 <= k && k + p.len() <= s.len() && s.subrange(k, k + p.len()) == p
}

/// The first position at or after `k` where `p` occurs in `s`, if any.
pub open spec fn find_from(s: Seq<char>, p: Seq<char>, k: int) -> Option<int>
    decreases s.len() + 1 - k,
{
    if k < 0 || k + p.len() > s.len() {
        None
    } else if occurs_at(s, p, k) {
        Some(k)
    } else {
        find_from(s, p, k + 1)
    }
}

/// The leftmost position where `p` occurs in `s`, if any.
pub open spec fn first_occurrence(s: Seq<char>, p: Seq<char>) -> Option<int> {
    find_from(s, p, 0)
}

/// `s` with the leftmost occurrence of `p` replaced by `r`; `s` itself where
/// `p` does not occur. The empty pattern occurs at position 0.
pub open spec fn replace_first(s: Seq<char>, p: Seq<char>, r: Seq<char>) -> Seq<char> {
    match first_occurrence(s, p) {
        Some(k) => s.subrange(0, k) + r + s.subrange(k + p.len(), s.len() as int),
        None => s,
    }
}

/// What `find_from` returns is an occurrence, and no occurrence lies between
/// the start and it; where it returns nothing, there is no occurrence at or
/// after the start.
pub proof fn lemma_find_from(s: Seq<char>, p: Seq<char>, k: int)
    requires
        0 <= k,
    ensures
        match find_from(s, p, k) {
            Some(m) => k <= m && occurs_at(s, p, m) && forall|j: int|
                k <= j < m ==> !#[trigger] occurs_at(s, p, j),
            None => forall|j: int| k <= j ==> !#[trigger] occurs_at(s, p, j),
        },
    decreases s.len() + 1 - k,
{
    if k + p.len() > s.len() {
    } else if occurs_at(s, p, k) {
    } else {
        lemma_find_from(s, p, k + 1);
    }
}

/// Leftmost occurrence: wherever `p` occurs in `s`, the first occurrence
/// exists, lies no later, and no occurrence precedes it.
pub proof fn lemma_first_occurrence(s: Seq<char>, p: Seq<char>, m: int)
    requires
        occurs_at(s, p, m),
    ensures
        first_occurrence(s, p) matches Some(k) && k <= m && occurs_at(s, p, k)
            && forall|j: int| 0 <= j < k ==> !#[trigger] occurs_at(s, p, j),
{
    lemma_find_from(s, p, 0);
}

/// The characters of `s`, in order.
pub fn chars_of(s: &str) -> (r: Vec<char>)
    ensures
        r@ == s@,
{
    let mut r: Vec<char> = Vec::new();
    for c in it: s.chars()
        invariant
            r@ == it.seq().subrange(0, it.index() as int),
            it.seq() == s@,
    {
        r.push(c);
    }
    r
}

/// Whether `p` occurs in `s` at position `k`.
fn occurs_at_exec(s: &Vec<char>, p: &Vec<char>, k: usize) -> (b: bool)
    requires
        k + p.len() <= s.len(),
    ensures
        b == occurs_at(s@, p@, k as int),
{
    let mut j: usize = 0;
    while j < p.len()
        invariant
            j <= p.len(),
            k + p.len() <= s.len(),
            forall|i: int| 0 <= i < j ==> s@[k + i] == p@[i],
        decreases p@.len() - j,
    {
        if s[k + j] != p[j] {
            assert(s@.subrange(k as int, k + p@.len())[j as int] != p@[j as int]);
            return false;
        }
        j = j + 1;
    }
    assert(s@.subrange(k as int, k + p@.len()) =~= p@);
    true
}

/// The leftmost position where `p` occurs in `s`, if any.
pub fn find(s: &Vec<char>, p: &Vec<char>) -> (r: Option<usize>)
    ensures
        r matches Some(k) ==> first_occurrence(s@, p@) == Some(k as int),
        r is None ==> first_occurrence(s@, p@) is None,
{
    if p.len() > s.len() {
        return None;
    }
    let last: usize = s.len() - p.len();
    let mut k: usize = 0;
    while k <= last
        invariant
            last + p@.len() == s@.len(),
            k <= last + 1,
            first_occurrence(s@, p@) == find_from(s@, p@, k as int),
        decreases last + 1 - k,
    {
        if occurs_at_exec(s, p, k) {
            return Some(k);
        }
        if k == last {
            return None;
        }
        k = k + 1;
    }
    None
}

/// `s` with the leftmost occurrence of `p` replaced by `r`, or nothing where
/// `p` does not occur in `s`.
pub fn replace_leftmost(s: &str, p: &str, r: &str) -> (res: Option<String>)
    ensures
        res is None <==> first_occurrence(s@, p@) is None,
        res matches Some(t) ==> t@ == replace_first(s@, p@, r@),
{
    let sc = chars_of(s);
    let pc = chars_of(p);
    match find(&sc, &pc) {
        None => None,
        Some(k) => {
            proof {
                lemma_find_from(s@, p@, 0);
            }
            assert(k + pc.len() <= sc.len());
            let end: usize = k + pc.len();
            let mut t = String::from_str(s.substring_char(0, k));
            t.append(r);
            t.append(s.substring_char(end, sc.len()));
            Some(t)
        },
    }
}

} // verus!
