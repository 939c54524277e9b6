use vstd::multiset::Multiset;
use vstd::prelude::*;

verus! {

// ---------------------------------------------------------------------------
// Lexicographic order on character sequences, by code point.
// ---------------------------------------------------------------------------

pub open spec fn lex_le(a: Seq<char>, b: Seq<char>) -> bool
    decreases a.len(),
{
    if a.len() == 0 {
        true
    } else if b.len() == 0 {
        false
    } else if a[0] != b[0] {
        (a[0] as int) < (b[0] as int)
    } else {
        lex_le(a.skip(1), b.skip(1))
    }
}

/// The order is total: of two sequences, one is less than or equal to the other.
pub proof fn lemma_lex_le_total(a: Seq<char>, b: Seq<char>)
    ensures
        lex_le(a, b) || lex_le(b, a),
    decreases a.len(),
{
    if a.len() != 0 && b.len() != 0 {
        if a[0] == b[0] {
            lemma_lex_le_total(a.skip(1), b.skip(1));
        } else {
            assert((a[0] as int) != (b[0] as int));
        }
    }
}

/// Dropping a common prefix does not change the order.
proof fn lemma_lex_le_skip(a: Seq<char>, b: Seq<char>, i: int)
    requires
        0 <= i <= a.len(),
        i <= b.len(),
        forall|j: int| 0 <= j < i ==> a[j] == b[j],
    ensures
        lex_le(a, b) == lex_le(a.skip(i), b.skip(i)),
    decreases i,
{
    if i > 0 {
        assert(a[0] == b[0]);
        assert forall|j: int| 0 <= j < i - 1 implies a.skip(1)[j] == b.skip(1)[j] by {
            assert(a.skip(1)[j] == a[j + 1]);
            assert(b.skip(1)[j] == b[j + 1]);
        }
        lemma_lex_le_skip(a.skip(1), b.skip(1), i - 1);
        assert(a.skip(1).skip(i - 1) =~= a.skip(i));
        assert(b.skip(1).skip(i - 1) =~= b.skip(i));
    } else {
        assert(a.skip(0) =~= a);
        assert(b.skip(0) =~= b);
    }
}

/// Decides `lex_le` on two string slices.
pub fn str_le(a: &str, b: &str) -> (r: bool)
    ensures
        r == lex_le(a@, b@),
{
    let alen = a.unicode_len();
    let blen = b.unicode_len();
    let mut i: usize = 0;
    loop
        invariant
            i <= alen,
            i <= blen,
            alen == a@.len(),
            blen == b@.len(),
            forall|j: int| 0 <= j < i ==> a@[j] == b@[j],
        ensures
            lex_le(a@, b@) == lex_le(a@.skip(i as int), b@.skip(i as int)),
            i <= alen,
            i <= blen,
            i == alen || i == blen || a@[i as int] != b@[i as int],
        decreases alen - i,
    {
        proof {
            lemma_lex_le_skip(a@, b@, i as int);
        }
        if i == alen || i == blen {
            break;
        }
        let ca = a.get_char(i);
        let cb = b.get_char(i);
        if ca != cb {
            break;
        }
        i = i + 1;
    }
    let ghost sa = a@.skip(i as int);
    let ghost sb = b@.skip(i as int);
    if i == alen {
        assert(sa.len() == 0);
        true
    } else if i == blen {
        assert(sa.len() > 0 && sb.len() == 0);
        false
    } else {
        let ca = a.get_char(i);
        let cb = b.get_char(i);
        proof {
            assert(sa[0] == a@[i as int]);
            assert(sb[0] == b@[i as int]);
        }
        (ca as u32) < (cb as u32)
    }
}

// ---------------------------------------------------------------------------
// Sorting a list of strings.
// ---------------------------------------------------------------------------

/// The views of a sequence of strings.
pub open spec fn str_views(v: Seq<String>) -> Seq<Seq<char>> {
    Seq::new(v.len(), |i: int| v[i]@)
}

/// Insertion into a sorted sequence, before the first element that `x` is
/// less than or equal to.
pub open spec fn insert_str(s: Seq<Seq<char>>, x: Seq<char>) -> Seq<Seq<char>>
    decreases s.len(),
{
    if s.len() == 0 {
        seq![x]
    } else if lex_le(x, s[0]) {
        seq![x] + s
    } else {
        seq![s[0]] + insert_str(s.skip(1), x)
    }
}

/// Insertion sort, element by element from the front.
pub open spec fn sort_strs(s: Seq<Seq<char>>) -> Seq<Seq<char>>
    decreases s.len(),
{
    if s.len() == 0 {
        Seq::<Seq<char>>::empty()
    } else {
        insert_str(sort_strs(s.drop_last()), s.last())
    }
}

/// A scan that passed every element `x` is not less than or equal to has found
/// the place where `insert_str` puts `x`.
proof fn lemma_insert_str_at(s: Seq<Seq<char>>, x: Seq<char>, i: int)
    requires
        0 <= i <= s.len(),
        forall|j: int| 0 <= j < i ==> !lex_le(x, #[trigger] s[j]),
        i < s.len() ==> lex_le(x, s[i]),
    ensures
        insert_str(s, x) == s.insert(i, x),
    decreases s.len(),
{
    if s.len() == 0 {
        assert(insert_str(s, x) =~= s.insert(0, x));
    } else if lex_le(x, s[0]) {
        assert(i == 0);
        assert(seq![x] + s =~= s.insert(0, x));
    } else {
        assert(i >= 1);
        assert forall|j: int| 0 <= j < i - 1 implies !lex_le(x, #[trigger] s.skip(1)[j]) by {
            assert(s.skip(1)[j] == s[j + 1]);
        }
        assert(i - 1 < s.skip(1).len() ==> lex_le(x, s.skip(1)[i - 1]));
        lemma_insert_str_at(s.skip(1), x, i - 1);
        assert(seq![s[0]] + s.skip(1).insert(i - 1, x) =~= s.insert(i, x));
    }
}

/// Inserts `x` into `v`, keeping the order that `insert_str` describes.
fn insert_string(v: &mut Vec<String>, x: String)
    ensures
        str_views(final(v)@) == insert_str(str_views(old(v)@), x@),
{
    let mut i: usize = 0;
    loop
        invariant
            i <= v@.len(),
            *v == *old(v),
            forall|j: int| 0 <= j < i ==> !lex_le(x@, #[trigger] v@[j]@),
        ensures
            i <= v@.len(),
            *v == *old(v),
            forall|j: int| 0 <= j < i ==> !lex_le(x@, #[trigger] v@[j]@),
            i < v@.len() ==> lex_le(x@, v@[i as int]@),
        decreases v@.len() - i,
    {
        if i == v.len() {
            break;
        }
        if str_le(x.as_str(), v[i].as_str()) {
            break;
        }
        i = i + 1;
    }
    proof {
        assert forall|j: int| 0 <= j < i implies !lex_le(x@, #[trigger] str_views(v@)[j]) by {
            assert(str_views(v@)[j] == v@[j]@);
        }
        lemma_insert_str_at(str_views(v@), x@, i as int);
    }
    let ghost old_views = str_views(v@);
    v.insert(i, x);
    assert(str_views(v@) =~= old_views.insert(i as int, x@));
}

/// Sorts the strings, as `sort_strs` describes.
pub fn sort_strings(v: Vec<String>) -> (r: Vec<String>)
    ensures
        str_views(r@) == sort_strs(str_views(v@)),
{
    let mut out: Vec<String> = Vec::new();
    let mut k: usize = 0;
    assert(str_views(out@) =~= sort_strs(str_views(v@).subrange(0, 0)));
    while k < v.len()
        invariant
            k <= v@.len(),
            str_views(out@) == sort_strs(str_views(v@).subrange(0, k as int)),
        decreases v@.len() - k,
    {
        let x = v[k].clone();
        insert_string(&mut out, x);
        proof {
            let pre = str_views(v@).subrange(0, k as int);
            let cur = str_views(v@).subrange(0, k + 1int);
            assert(cur.drop_last() =~= pre);
            assert(cur.last() == v@[k as int]@);
        }
        k = k + 1;
    }
    assert(str_views(v@).subrange(0, v@.len() as int) =~= str_views(v@));
    out
}

// ---------------------------------------------------------------------------
// The order is total, and the sort is a sorted permutation.
// ---------------------------------------------------------------------------

/// The lexicographic order as a relation value.
pub open spec fn lex_leq() -> spec_fn(Seq<char>, Seq<char>) -> bool {
    |a: Seq<char>, b: Seq<char>| lex_le(a, b)
}

proof fn lemma_lex_le_refl(a: Seq<char>)
    ensures
        lex_le(a, a),
    decreases a.len(),
{
    if a.len() > 0 {
        lemma_lex_le_refl(a.skip(1));
    }
}

proof fn lemma_lex_le_antisym(a: Seq<char>, b: Seq<char>)
    requires
        lex_le(a, b),
        lex_le(b, a),
    ensures
        a == b,
    decreases a.len(),
{
    if a.len() == 0 {
        assert(b.len() == 0);
        assert(a =~= b);
    } else {
        assert(b.len() > 0);
        assert(a[0] == b[0]);
        lemma_lex_le_antisym(a.skip(1), b.skip(1));
        assert forall|i: int| 0 <= i < a.len() implies a[i] == b[i] by {
            if i > 0 {
                assert(a.skip(1)[i - 1] == a[i]);
                assert(b.skip(1)[i - 1] == b[i]);
            }
        }
        assert(a =~= b);
    }
}

proof fn lemma_lex_le_trans(a: Seq<char>, b: Seq<char>, c: Seq<char>)
    requires
        lex_le(a, b),
        lex_le(b, c),
    ensures
        lex_le(a, c),
    decreases a.len(),
{
    if a.len() > 0 {
        assert(b.len() > 0);
        assert(c.len() > 0);
        if a[0] == b[0] && b[0] == c[0] {
            lemma_lex_le_trans(a.skip(1), b.skip(1), c.skip(1));
        }
    }
}

/// The lexicographic order is a total order.
pub proof fn lemma_lex_leq_total_ordering()
    ensures
        vstd::relations::total_ordering(lex_leq()),
{
    let r = lex_leq();
    assert forall|x: Seq<char>| #[trigger] r(x, x) by {
        lemma_lex_le_refl(x);
    }
    assert forall|x: Seq<char>, y: Seq<char>| #[trigger] r(x, y) && #[trigger] r(y, x) implies x
        == y by {
        lemma_lex_le_antisym(x, y);
    }
    assert forall|x: Seq<char>, y: Seq<char>, z: Seq<char>|
        #[trigger] r(x, y) && #[trigger] r(y, z) implies r(x, z) by {
        lemma_lex_le_trans(x, y, z);
    }
    assert forall|x: Seq<char>, y: Seq<char>| #[trigger] r(x, y) || #[trigger] r(y, x) by {
        lemma_lex_le_total(x, y);
    }
}

/// Inserting adds exactly the new element to the contents.
proof fn lemma_insert_str_multiset(s: Seq<Seq<char>>, x: Seq<char>)
    ensures
        insert_str(s, x).to_multiset() =~= s.to_multiset().insert(x),
    decreases s.len(),
{
    broadcast use vstd::multiset::group_multiset_axioms;

    s.to_multiset_ensures();
    if s.len() == 0 {
        assert(seq![x] =~= Seq::<Seq<char>>::empty().push(x));
        Seq::<Seq<char>>::empty().to_multiset_ensures();
        assert forall|e: Seq<char>| #[trigger] s.to_multiset().count(e) == 0 by {
            assert(!s.contains(e));
        }
        assert(s.to_multiset() =~= Multiset::<Seq<char>>::empty());
        assert(insert_str(s, x).to_multiset() =~= s.to_multiset().insert(x));
    } else if lex_le(x, s[0]) {
        vstd::seq_lib::lemma_multiset_commutative(seq![x], s);
        assert(seq![x] =~= Seq::<Seq<char>>::empty().push(x));
        Seq::<Seq<char>>::empty().to_multiset_ensures();
        assert forall|e: Seq<char>|
            #[trigger] (seq![x] + s).to_multiset().count(e) == s.to_multiset().insert(x).count(
                e,
            ) by {
            assert(!Seq::<Seq<char>>::empty().contains(e));
        }
        assert((seq![x] + s).to_multiset() =~= s.to_multiset().insert(x));
    } else {
        let w = insert_str(s.skip(1), x);
        lemma_insert_str_multiset(s.skip(1), x);
        vstd::seq_lib::lemma_multiset_commutative(seq![s[0]], w);
        vstd::seq_lib::lemma_multiset_commutative(seq![s[0]], s.skip(1));
        assert(seq![s[0]] + s.skip(1) =~= s);
        assert((seq![s[0]] + w).to_multiset() =~= s.to_multiset().insert(x));
    }
}

/// Inserting into a sorted sequence keeps it sorted.
proof fn lemma_insert_str_sorted(s: Seq<Seq<char>>, x: Seq<char>)
    requires
        vstd::relations::sorted_by(s, lex_leq()),
    ensures
        vstd::relations::sorted_by(insert_str(s, x), lex_leq()),
    decreases s.len(),
{
    broadcast use vstd::multiset::group_multiset_axioms;

    let r = lex_leq();
    if s.len() == 0 {
    } else if lex_le(x, s[0]) {
        let v = seq![x] + s;
        assert forall|i: int, j: int| 0 <= i < j < v.len() implies #[trigger] r(v[i], v[j]) by {
            if i == 0 {
                assert(v[j] == s[j - 1]);
                if j == 1 {
                } else {
                    assert(r(s[0], s[j - 1]));
                    lemma_lex_le_trans(x, s[0], s[j - 1]);
                }
            } else {
                assert(v[i] == s[i - 1]);
                assert(v[j] == s[j - 1]);
            }
        }
    } else {
        lemma_lex_le_total(x, s[0]);
        assert forall|i: int, j: int|
            0 <= i < j < s.skip(1).len() implies #[trigger] r(s.skip(1)[i], s.skip(1)[j]) by {
            assert(s.skip(1)[i] == s[i + 1]);
            assert(s.skip(1)[j] == s[j + 1]);
        }
        lemma_insert_str_sorted(s.skip(1), x);
        lemma_insert_str_multiset(s.skip(1), x);
        let w = insert_str(s.skip(1), x);
        w.to_multiset_ensures();
        s.skip(1).to_multiset_ensures();
        let v = seq![s[0]] + w;
        assert forall|i: int, j: int| 0 <= i < j < v.len() implies #[trigger] r(v[i], v[j]) by {
            if i == 0 {
                // the head is below everything inserted behind it
                let e = w[j - 1];
                assert(w.contains(e));
                assert(w.to_multiset().count(e) > 0);
                if e == x {
                    assert(r(s[0], x));
                } else {
                    assert(s.skip(1).to_multiset().count(e) > 0);
                    assert(s.skip(1).contains(e));
                    let k = choose|k: int| 0 <= k < s.skip(1).len() && s.skip(1)[k] == e;
                    assert(s.skip(1)[k] == s[k + 1]);
                    assert(r(s[0], s[k + 1]));
                }
            } else {
                assert(v[i] == w[i - 1]);
                assert(v[j] == w[j - 1]);
            }
        }
    }
}

/// The sort is sorted.
pub proof fn lemma_sort_strs_sorted(s: Seq<Seq<char>>)
    ensures
        vstd::relations::sorted_by(sort_strs(s), lex_leq()),
    decreases s.len(),
{
    if s.len() > 0 {
        lemma_sort_strs_sorted(s.drop_last());
        lemma_insert_str_sorted(sort_strs(s.drop_last()), s.last());
    }
}

/// The sort is a permutation: it keeps exactly the given strings.
pub proof fn lemma_sort_strs_multiset(s: Seq<Seq<char>>)
    ensures
        sort_strs(s).to_multiset() =~= s.to_multiset(),
    decreases s.len(),
{
    broadcast use vstd::multiset::group_multiset_axioms;

    if s.len() == 0 {
        assert(s =~= Seq::<Seq<char>>::empty());
    } else {
        lemma_sort_strs_multiset(s.drop_last());
        lemma_insert_str_multiset(sort_strs(s.drop_last()), s.last());
        s.drop_last().to_multiset_ensures();
        assert(s =~= s.drop_last().push(s.last()));
        assert(s.drop_last().push(s.last()).to_multiset() =~= s.drop_last().to_multiset().insert(
            s.last(),
        ));
        assert(sort_strs(s).to_multiset() =~= s.to_multiset());
    }
}

/// Sorting is canonical: two lists of the same strings, in any order,
/// sort to the same sequence.
pub proof fn lemma_sort_strs_canonical(c1: Seq<Seq<char>>, c2: Seq<Seq<char>>)
    requires
        c1.to_multiset() == c2.to_multiset(),
    ensures
        sort_strs(c1) == sort_strs(c2),
{
    lemma_sort_strs_sorted(c1);
    lemma_sort_strs_sorted(c2);
    lemma_sort_strs_multiset(c1);
    lemma_sort_strs_multiset(c2);
    lemma_lex_leq_total_ordering();
    vstd::seq_lib::lemma_sorted_unique(sort_strs(c1), sort_strs(c2), lex_leq());
}

// ---------------------------------------------------------------------------
// Joining strings with a comma.
// ---------------------------------------------------------------------------

pub open spec fn join_comma(s: Seq<Seq<char>>) -> Seq<char>
    decreases s.len(),
{
    if s.len() == 0 {
        Seq::<char>::empty()
    } else if s.len() == 1 {
        s[0]
    } else {
        join_comma(s.drop_last()) + ","@ + s.last()
    }
}

/// Joins the strings with a comma between neighbours.
pub fn join_strings_comma(v: &Vec<String>) -> (r: String)
    ensures
        r@ == join_comma(str_views(v@)),
{
    let mut out = String::new();
    let mut i: usize = 0;
    assert(out@ =~= join_comma(str_views(v@).subrange(0, 0)));
    while i < v.len()
        invariant
            i <= v@.len(),
            out@ == join_comma(str_views(v@).subrange(0, i as int)),
        decreases v@.len() - i,
    {
        if i > 0 {
            out.append(",");
        }
        out.append(v[i].as_str());
        proof {
            let pre = str_views(v@).subrange(0, i as int);
            let cur = str_views(v@).subrange(0, i + 1int);
            assert(cur.drop_last() =~= pre);
            assert(cur.last() == v@[i as int]@);
            if i == 0 {
                assert(cur.len() == 1);
                assert(out@ =~= join_comma(cur));
            }
        }
        i = i + 1;
    }
    assert(str_views(v@).subrange(0, v@.len() as int) =~= str_views(v@));
    out
}

// ---------------------------------------------------------------------------
// Decimal digits.
// ---------------------------------------------------------------------------

/// The decimal digit character for `d` in 0..10.
pub open spec fn dec_digit(d: int) -> char {
    "0123456789"@[d]
}

/// The decimal rendering of a non-negative number, most significant digit
/// first, without leading zeroes (a single zero for 0).
pub open spec fn dec_chars(n: int) -> Seq<char>
    decreases n,
{
    if n < 10 {
        seq![dec_digit(n)]
    } else {
        dec_chars(n / 10) + seq![dec_digit(n % 10)]
    }
}

/// Appends the decimal rendering of `n` to `out`.
pub fn push_dec(out: &mut String, n: u32)
    ensures
        final(out)@ == old(out)@ + dec_chars(n as int),
    decreases n,
{
    let digits = "0123456789";
    proof {
        reveal_strlit("0123456789");
    }
    if n >= 10 {
        push_dec(out, n / 10);
    }
    let d = (n % 10) as usize;
    let s = digits.substring_ascii(d, d + 1);
    out.append(s);
    proof {
        assert(s@ =~= seq![dec_digit((n % 10) as int)]);
        assert(old(out)@ + dec_chars(n as int) =~= out@);
    }
}

/// Is `c` a decimal digit?
pub open spec fn is_dec_digit(c: char) -> bool {
    48 <= (c as int) <= 57
}

pub open spec fn all_dec_digits(s: Seq<char>) -> bool {
    forall|i: int| 0 <= i < s.len() ==> is_dec_digit(#[trigger] s[i])
}

/// The number that a sequence of decimal digits denotes.
pub open spec fn dec_val(s: Seq<char>) -> int
    decreases s.len(),
{
    if s.len() == 0 {
        0
    } else {
        dec_val(s.drop_last()) * 10 + ((s.last() as int) - 48)
    }
}

proof fn lemma_dec_val_nonneg(s: Seq<char>)
    requires
        all_dec_digits(s),
    ensures
        dec_val(s) >= 0,
    decreases s.len(),
{
    if s.len() > 0 {
        assert(all_dec_digits(s.drop_last())) by {
            assert(forall|i: int| 0 <= i < s.len() - 1 ==> s.drop_last()[i] == s[i]);
        }
        lemma_dec_val_nonneg(s.drop_last());
    }
}

/// A digit string is worth at least any of its prefixes.
proof fn lemma_dec_val_prefix(s: Seq<char>, i: int)
    requires
        all_dec_digits(s),
        0 <= i <= s.len(),
    ensures
        dec_val(s) >= dec_val(s.subrange(0, i)),
    decreases s.len() - i,
{
    if i < s.len() {
        let a = s.subrange(0, i);
        let b = s.subrange(0, i + 1);
        assert(b.drop_last() =~= a);
        assert(all_dec_digits(a)) by {
            assert(forall|j: int| 0 <= j < i ==> a[j] == s[j]);
        }
        lemma_dec_val_nonneg(a);
        assert(dec_val(b) == dec_val(a) * 10 + ((b.last() as int) - 48));
        assert(dec_val(a) * 10 >= dec_val(a));
        lemma_dec_val_prefix(s, i + 1);
    } else {
        assert(s.subrange(0, i) =~= s);
    }
}

/// Parses a decimal number.  Succeeds exactly on non-empty all-digit strings
/// whose value fits in `u32`.
pub fn parse_u32(s: &str) -> (r: Option<u32>)
    ensures
        match r {
            Some(v) => s@.len() > 0 && all_dec_digits(s@) && v as int == dec_val(s@),
            None => s@.len() == 0 || !all_dec_digits(s@) || dec_val(s@) > u32::MAX as int,
        },
{
    let n = s.unicode_len();
    if n == 0 {
        return None;
    }
    let mut val: u64 = 0;
    let mut i: usize = 0;
    while i < n
        invariant
            i <= n,
            n == s@.len(),
            all_dec_digits(s@.subrange(0, i as int)),
            val as int == dec_val(s@.subrange(0, i as int)),
            val <= u32::MAX as u64,
        decreases n - i,
    {
        let c = s.get_char(i);
        let cu = c as u32;
        if cu < 48 || cu > 57 {
            assert(!is_dec_digit(s@[i as int]));
            return None;
        }
        let d = (cu - 48) as u64;
        val = val * 10 + d;
        proof {
            let a = s@.subrange(0, i as int);
            let b = s@.subrange(0, i + 1);
            assert(b.drop_last() =~= a);
            assert(b.last() == s@[i as int]);
        }
        i = i + 1;
        if val > u32::MAX as u64 {
            proof {
                if all_dec_digits(s@) {
                    lemma_dec_val_prefix(s@, i as int);
                }
            }
            return None;
        }
    }
    proof {
        assert(s@.subrange(0, n as int) =~= s@);
    }
    Some(val as u32)
}

/// Index of the last occurrence of `c` in `s`, or -1.
pub open spec fn rfind_char(s: Seq<char>, c: char) -> int
    decreases s.len(),
{
    if s.len() == 0 {
        -1
    } else if s.last() == c {
        s.len() - 1
    } else {
        rfind_char(s.drop_last(), c)
    }
}

/// Finds the last occurrence of `c` in `s`.
pub fn str_rfind(s: &str, c: char) -> (r: Option<usize>)
    ensures
        match r {
            Some(i) => rfind_char(s@, c) == i as int && (i as int) < s@.len(),
            None => rfind_char(s@, c) == -1,
        },
{
    let n = s.unicode_len();
    let mut i: usize = n;
    assert(s@.subrange(0, n as int) =~= s@);
    while i > 0
        invariant
            i <= n,
            n == s@.len(),
            rfind_char(s@, c) == rfind_char(s@.subrange(0, i as int), c),
        decreases i,
    {
        let ch = s.get_char(i - 1);
        proof {
            let b = s@.subrange(0, i as int);
            let a = s@.subrange(0, i - 1);
            assert(b.drop_last() =~= a);
            assert(b.last() == s@[i - 1]);
        }
        if ch == c {
            proof {
                assert(s@.subrange(0, n as int) =~= s@);
            }
            return Some(i - 1);
        }
        i = i - 1;
    }
    proof {
        assert(s@.subrange(0, n as int) =~= s@);
        assert(s@.subrange(0, 0).len() == 0);
    }
    None
}

} // verus!
