//! Verified helpers over strings and vectors of strings: equality, substring
//! search, prefix/suffix tests on `/`, lexicographic order, membership and
//! cloning for duplicate-free string vectors.

use vstd::prelude::*;

verus! {

broadcast use vstd::seq_lib::lemma_seq_contains_after_push;

/// `sub` occurs in `s` starting at position `i`.
pub open spec fn contains_at(s: Seq<char>, sub: Seq<char>, i: int) -> bool {
    0 <= i && i + sub.len() <= s.len() && s.subrange(i, i + sub.len() as int) == sub
}

/// `sub` occurs somewhere in `s` (substring match).
pub open spec fn contains_seq(s: Seq<char>, sub: Seq<char>) -> bool {
    exists|i: int| contains_at(s, sub, i)
}

pub open spec fn starts_with_slash(s: Seq<char>) -> bool {
    s.len() > 0 && s[0] == '/'
}

pub open spec fn ends_with_slash(s: Seq<char>) -> bool {
    s.len() > 0 && s[s.len() - 1] == '/'
}

/// Whether `sub` occurs in `s` at position `i`; lengths are passed in so the
/// caller's O(n) length computations are not repeated.
fn match_at(s: &str, sub: &str, i: usize, s_len: usize, sub_len: usize) -> (r: bool)
    requires
        s_len == s@.len(),
        sub_len == sub@.len(),
        i + sub_len <= s_len,
    ensures
        r == contains_at(s@, sub@, i as int),
{
    let mut j: usize = 0;
    while j < sub_len
        invariant
            j <= sub_len,
            s_len == s@.len(),
            sub_len == sub@.len(),
            i + sub_len <= s_len,
            forall|k: int| 0 <= k < j ==> s@[i + k] == sub@[k],
        decreases sub_len - j,
    {
        if s.get_char(i + j) != sub.get_char(j) {
            proof {
                assert(!contains_at(s@, sub@, i as int)) by {
                    if s@.subrange(i as int, i + sub@.len() as int) == sub@ {
                        assert(s@.subrange(i as int, i + sub@.len() as int)[j as int] == s@[i + j]);
                    }
                }
            }
            return false;
        }
        j += 1;
    }
    proof {
        assert(s@.subrange(i as int, i + sub@.len() as int) =~= sub@);
    }
    true
}

/// Substring search: whether `sub` occurs anywhere in `s`.
pub fn str_contains(s: &str, sub: &str) -> (r: bool)
    ensures
        r == contains_seq(s@, sub@),
{
    let s_len = s.unicode_len();
    let sub_len = sub.unicode_len();
    if sub_len > s_len {
        return false;
    }
    if sub_len == 0 {
        proof {
            assert(s@.subrange(0, 0) =~= sub@);
            assert(contains_at(s@, sub@, 0));
        }
        return true;
    }
    let mut i: usize = 0;
    while i <= s_len - sub_len
        invariant
            s_len == s@.len(),
            sub_len == sub@.len(),
            0 < sub_len <= s_len,
            i <= s_len - sub_len + 1,
            forall|k: int| 0 <= k < i ==> !contains_at(s@, sub@, k),
        decreases s_len - sub_len - i + 1,
    {
        if match_at(s, sub, i, s_len, sub_len) {
            return true;
        }
        i += 1;
    }
    false
}

/// Character-for-character string equality.
pub fn str_eq(a: &str, b: &str) -> (r: bool)
    ensures
        r == (a@ == b@),
{
    let a_len = a.unicode_len();
    let b_len = b.unicode_len();
    if a_len != b_len {
        return false;
    }
    let mut i: usize = 0;
    while i < a_len
        invariant
            i <= a_len,
            a_len == a@.len(),
            a_len == b@.len(),
            forall|k: int| 0 <= k < i ==> a@[k] == b@[k],
        decreases a_len - i,
    {
        if a.get_char(i) != b.get_char(i) {
            return false;
        }
        i += 1;
    }
    proof {
        assert(a@ =~= b@);
    }
    true
}

pub fn str_starts_with_slash(s: &str) -> (r: bool)
    ensures
        r == starts_with_slash(s@),
{
    if s.unicode_len() == 0 {
        false
    } else {
        s.get_char(0) == '/'
    }
}

pub fn str_ends_with_slash(s: &str) -> (r: bool)
    ensures
        r == ends_with_slash(s@),
{
    let n = s.unicode_len();
    if n == 0 {
        false
    } else {
        s.get_char(n - 1) == '/'
    }
}

/// Lexicographic order on character sequences, compared from position `i` on.
pub open spec fn lex_le_from(a: Seq<char>, b: Seq<char>, i: int) -> bool
    decreases a.len() - i,
{
    if i >= a.len() {
        true
    } else if i >= b.len() {
        false
    } else if a[i] != b[i] {
        (a[i] as int) < (b[i] as int)
    } else {
        lex_le_from(a, b, i + 1)
    }
}

/// Lexicographic order on character sequences (by code point, as `str`
/// comparison orders them).
pub open spec fn lex_le(a: Seq<char>, b: Seq<char>) -> bool {
    lex_le_from(a, b, 0)
}

/// `lex_le` is total.
pub proof fn lemma_lex_total_from(a: Seq<char>, b: Seq<char>, i: int)
    requires
        0 <= i,
    ensures
        lex_le_from(a, b, i) || lex_le_from(b, a, i),
    decreases a.len() - i,
{
    if i >= a.len() {
    } else if i >= b.len() {
    } else if a[i] == b[i] {
        lemma_lex_total_from(a, b, i + 1);
    } else {
        assert((a[i] as int) != (b[i] as int));
    }
}

/// `lex_le` is transitive.
pub proof fn lemma_lex_trans_from(a: Seq<char>, b: Seq<char>, c: Seq<char>, i: int)
    requires
        0 <= i,
        lex_le_from(a, b, i),
        lex_le_from(b, c, i),
    ensures
        lex_le_from(a, c, i),
    decreases a.len() - i,
{
    if i < a.len() && i < b.len() && i < c.len() && a[i] == b[i] && b[i] == c[i] {
        lemma_lex_trans_from(a, b, c, i + 1);
    }
}

/// Lexicographic comparison of two strings.
pub fn str_lex_le(a: &str, b: &str) -> (r: bool)
    ensures
        r == lex_le(a@, b@),
{
    let a_len = a.unicode_len();
    let b_len = b.unicode_len();
    let mut i: usize = 0;
    while i < a_len && i < b_len
        invariant
            i <= a_len,
            i <= b_len,
            a_len == a@.len(),
            b_len == b@.len(),
            lex_le(a@, b@) == lex_le_from(a@, b@, i as int),
        decreases a_len - i,
    {
        let ca = a.get_char(i);
        let cb = b.get_char(i);
        if ca != cb {
            return (ca as u32) < (cb as u32);
        }
        i += 1;
    }
    i == a_len
}

/// Membership of a string in a vector of strings.
pub fn vec_contains_str(v: &Vec<String>, x: &str) -> (r: bool)
    ensures
        r == v.deep_view().contains(x@),
{
    let mut k: usize = 0;
    while k < v.len()
        invariant
            k <= v@.len(),
            forall|j: int| 0 <= j < k ==> v.deep_view()[j] != x@,
        decreases v@.len() - k,
    {
        if str_eq(v[k].as_str(), x) {
            proof {
                assert(v.deep_view()[k as int] == x@);
            }
            return true;
        }
        k += 1;
    }
    proof {
        assert(!v.deep_view().contains(x@)) by {
            if v.deep_view().contains(x@) {
                let j = choose|j: int| 0 <= j < v.deep_view().len() && v.deep_view()[j] == x@;
                assert(v.deep_view()[j] != x@);
            }
        }
    }
    false
}

/// A copy of a vector of strings with the same contents.
pub fn clone_string_vec(v: &Vec<String>) -> (r: Vec<String>)
    ensures
        r.deep_view() == v.deep_view(),
{
    let mut r: Vec<String> = Vec::new();
    let mut k: usize = 0;
    while k < v.len()
        invariant
            k <= v@.len(),
            r@.len() == k,
            forall|j: int| 0 <= j < k ==> r.deep_view()[j] == v.deep_view()[j],
        decreases v@.len() - k,
    {
        let s = v[k].clone();
        proof {
            assert(s@ == v@[k as int]@);
        }
        r.push(s);
        k += 1;
    }
    proof {
        assert(r.deep_view() =~= v.deep_view());
    }
    r
}

/// Pushing an element that is not yet present keeps a sequence duplicate-free.
pub proof fn lemma_no_dups_push<A>(s: Seq<A>, x: A)
    requires
        s.no_duplicates(),
        !s.contains(x),
    ensures
        s.push(x).no_duplicates(),
{
    assert forall|i: int, j: int| 0 <= i < j < s.push(x).len() implies s.push(x)[i] != s.push(x)[j] by {
        if j < s.len() {
            assert(s.push(x)[i] == s[i] && s.push(x)[j] == s[j]);
        } else {
            assert(s.push(x)[i] == s[i]);
            assert(s[i] != x);
        }
    }
}

/// The strings of `v`, deduplicated, keeping first occurrences in order.
pub fn dedup_strings(v: &Vec<String>) -> (r: Vec<String>)
    ensures
        r.deep_view().no_duplicates(),
        forall|u: Seq<char>| r.deep_view().contains(u) <==> v.deep_view().contains(u),
{
    let ghost s = v.deep_view();
    let mut r: Vec<String> = Vec::new();
    let mut i: usize = 0;
    while i < v.len()
        invariant
            i <= s.len(),
            s == v.deep_view(),
            r.deep_view().no_duplicates(),
            forall|u: Seq<char>|
                (#[trigger] r.deep_view().contains(u)) <==> s.take(i as int).contains(u),
            forall|u: Seq<char>|
                (#[trigger] s.take(i as int).contains(u)) ==> r.deep_view().contains(u),
        decreases s.len() - i,
    {
        let ghost prev = r.deep_view();
        let x = v[i].clone();
        let ghost xv = x@;
        proof {
            assert(xv == s[i as int]);
            s.lemma_take_succ_push(i as int);
        }
        if !vec_contains_str(&r, x.as_str()) {
            r.push(x);
            proof {
                assert(r.deep_view() =~= prev.push(xv));
                lemma_no_dups_push(prev, xv);
            }
        }
        proof {
            assert forall|u: Seq<char>|
                (((#[trigger] r.deep_view().contains(u)) <==> s.take(i as int + 1).contains(u))
                    && ((#[trigger] s.take(i as int + 1).contains(u)) ==> r.deep_view().contains(
                    u,
                ))) by {
                assert(s.take(i as int + 1) == s.take(i as int).push(s[i as int]));
                assert(s.take(i as int).push(s[i as int]).contains(u) <==> s.take(
                    i as int,
                ).contains(u) || u == s[i as int]);
                if r.deep_view() == prev {
                    assert(prev.contains(xv));
                } else {
                    assert(r.deep_view() == prev.push(xv));
                    assert(prev.push(xv).contains(u) <==> prev.contains(u) || u == xv);
                }
            }
        }
        i += 1;
    }
    proof {
        assert(s.take(s.len() as int) =~= s);
    }
    r
}

/// Membership in a concatenation is membership in either part.
pub proof fn lemma_concat_contains<A>(a: Seq<A>, b: Seq<A>, x: A)
    ensures
        (a + b).contains(x) <==> a.contains(x) || b.contains(x),
{
    if (a + b).contains(x) {
        let j = choose|j: int| 0 <= j < (a + b).len() && #[trigger] (a + b)[j] == x;
        if j < a.len() {
            assert(a[j] == x);
        } else {
            assert(b[j - a.len()] == x);
        }
    }
    if a.contains(x) {
        let j = choose|j: int| 0 <= j < a.len() && #[trigger] a[j] == x;
        assert((a + b)[j] == x);
    }
    if b.contains(x) {
        let j = choose|j: int| 0 <= j < b.len() && #[trigger] b[j] == x;
        assert((a + b)[j + a.len()] == x);
    }
}

} // verus!
