use vstd::prelude::*;

verus! {

/// Index of the first element of `s` satisfying `p`, or -1 when none does.
pub open spec fn find_first<T>(s: Seq<T>, p: spec_fn(T) -> bool) -> int
    decreases s.len(),
{
    if s.len() == 0 {
        -1
    } else if p(s[0]) {
        0
    } else {
        let r = find_first(s.skip(1), p);
        if r == -1 {
            -1
        } else {
            1 + r
        }
    }
}

/// What `find_first` returns, spelled out: either no element matches, or the
/// result is the least matching index.
pub proof fn lemma_find_first_props<T>(s: Seq<T>, p: spec_fn(T) -> bool)
    ensures
        find_first(s, p) == -1 ==> forall|j: int| 0 <= j < s.len() ==> !p(#[trigger] s[j]),
        find_first(s, p) != -1 ==> 0 <= find_first(s, p) < s.len() && p(s[find_first(s, p)]),
        find_first(s, p) != -1 ==> forall|j: int|
            0 <= j < find_first(s, p) ==> !p(#[trigger] s[j]),
    decreases s.len(),
{
    if s.len() > 0 && !p(s[0]) {
        lemma_find_first_props(s.skip(1), p);
        assert forall|j: int| 1 <= j < s.len() implies s.skip(1)[j - 1] == s[j] by {}
    }
}

/// A scan that saw no match before `i`, and a match at `i` unless it ran off
/// the end, has computed `find_first`.
pub proof fn lemma_find_first_at<T>(s: Seq<T>, p: spec_fn(T) -> bool, i: int)
    requires
        0 <= i <= s.len(),
        forall|j: int| 0 <= j < i ==> !p(#[trigger] s[j]),
        i < s.len() ==> p(s[i]),
    ensures
        find_first(s, p) == if i < s.len() {
            i
        } else {
            -1int
        },
    decreases s.len(),
{
    if s.len() == 0 {
    } else if p(s[0]) {
        assert(i == 0);
    } else {
        assert(i >= 1);
        assert forall|j: int| 0 <= j < i - 1 implies !p(#[trigger] s.skip(1)[j]) by {
            assert(s.skip(1)[j] == s[j + 1]);
        }
        assert(i - 1 < s.skip(1).len() ==> p(s.skip(1)[i - 1]));
        lemma_find_first_at(s.skip(1), p, i - 1);
    }
}

/// Two scans over pointwise-equivalent sequences find the same index.
pub proof fn lemma_find_first_pointwise<A, B>(
    s1: Seq<A>,
    s2: Seq<B>,
    p: spec_fn(A) -> bool,
    q: spec_fn(B) -> bool,
)
    requires
        s1.len() == s2.len(),
        forall|i: int| 0 <= i < s1.len() ==> p(#[trigger] s1[i]) == q(#[trigger] s2[i]),
    ensures
        find_first(s1, p) == find_first(s2, q),
{
    lemma_find_first_props(s1, p);
    let r = find_first(s1, p);
    if r == -1 {
        assert forall|j: int| 0 <= j < s2.len() implies !q(#[trigger] s2[j]) by {
            assert(!p(s1[j]));
        }
        lemma_find_first_at(s2, q, s2.len() as int);
    } else {
        assert forall|j: int| 0 <= j < r implies !q(#[trigger] s2[j]) by {
            assert(!p(s1[j]));
        }
        assert(q(s2[r]));
        lemma_find_first_at(s2, q, r);
    }
}

} // verus!
