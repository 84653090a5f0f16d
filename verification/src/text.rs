//! Comparisons of strings, character by character.
use vstd::prelude::*;

verus! {

/// `pattern` occurs in `s` at index `i`.
pub open spec fn occurs_at(s: Seq<char>, pattern: Seq<char>, i: int) -> bool {
    &&& 0 <= i
    &&& i + pattern.len() <= s.len()
    &&& s.subrange(i, i + pattern.len()) == pattern
}

/// `pattern` occurs somewhere in `s`.
pub open spec fn contains_pattern(s: Seq<char>, pattern: Seq<char>) -> bool {
    exists|i: int| occurs_at(s, pattern, i)
}

/// `s` ends with `suffix`.
pub open spec fn has_suffix(s: Seq<char>, suffix: Seq<char>) -> bool {
    occurs_at(s, suffix, s.len() - suffix.len())
}

/// `s` starts with `prefix`.
pub open spec fn has_prefix(s: Seq<char>, prefix: Seq<char>) -> bool {
    occurs_at(s, prefix, 0)
}

/// Whether `pattern` occurs in `s` at index `i`.
fn occurs_at_index(s: &str, pattern: &str, i: usize) -> (r: bool)
    requires
        i <= s@.len(),
    ensures
        r == occurs_at(s@, pattern@, i as int),
{
    let n = s.unicode_len();
    let m = pattern.unicode_len();
    if m > n - i {
        return false;
    }
    let mut k: usize = 0;
    while k < m
        invariant
            n == s@.len(),
            m == pattern@.len(),
            i + m <= n,
            k <= m,
            forall|j: int| 0 <= j < k ==> s@[i + j] == pattern@[j],
        decreases m - k,
    {
        if s.get_char(i + k) != pattern.get_char(k) {
            assert(s@.subrange(i as int, i + m)[k as int] != pattern@[k as int]);
            return false;
        }
        k = k + 1;
    }
    assert(s@.subrange(i as int, i + m) =~= pattern@);
    true
}

/// Whether `s` and `t` are the same string.
pub fn same_text(s: &str, t: &str) -> (r: bool)
    ensures
        r == (s@ == t@),
{
    if s.unicode_len() != t.unicode_len() {
        return false;
    }
    let r = occurs_at_index(s, t, 0);
    assert(r ==> s@ =~= s@.subrange(0, t@.len() as int));
    assert(s@.len() == t@.len() ==> s@.subrange(0, t@.len() as int) =~= s@);
    r
}

/// `str::contains` with a string pattern.
pub fn text_contains(s: &str, pattern: &str) -> (r: bool)
    ensures
        r == contains_pattern(s@, pattern@),
{
    let n = s.unicode_len();
    let mut i: usize = 0;
    while i <= n
        invariant
            n == s@.len(),
            i <= n + 1,
            forall|j: int| 0 <= j < i ==> !occurs_at(s@, pattern@, j),
        decreases n + 1 - i,
    {
        if occurs_at_index(s, pattern, i) {
            return true;
        }
        if i == n {
            assert forall|j: int| !occurs_at(s@, pattern@, j) by {
                if occurs_at(s@, pattern@, j) {
                    assert(j <= n);
                }
            }
            return false;
        }
        i = i + 1;
    }
    false
}

/// `str::ends_with` with a string pattern.
pub fn text_ends_with(s: &str, suffix: &str) -> (r: bool)
    ensures
        r == has_suffix(s@, suffix@),
{
    let n = s.unicode_len();
    let m = suffix.unicode_len();
    if m > n {
        return false;
    }
    occurs_at_index(s, suffix, n - m)
}

/// `str::starts_with` with a string pattern.
pub fn text_starts_with(s: &str, prefix: &str) -> (r: bool)
    ensures
        r == has_prefix(s@, prefix@),
{
    occurs_at_index(s, prefix, 0)
}

} // verus!
