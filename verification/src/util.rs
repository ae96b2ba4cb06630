//! Small shared facts and helpers: injectivity of the character-to-scalar
//! cast, cardinality bounds for duplicate-free index sequences, and ordered
//! insertion into a sorted duplicate-free index vector.

use vstd::prelude::*;

verus! {

broadcast use vstd::seq_lib::lemma_seq_contains_after_push;

/// Two characters with the same scalar value are the same character.
pub broadcast proof fn char_cast_injective(a: char, b: char)
    ensures
        #![trigger a as u32, b as u32]
        a as u32 == b as u32 ==> a == b,
{
    if a as u32 == b as u32 {
        vstd::utf8::char_u32_cast(a, a as u32);
        vstd::utf8::char_u32_cast(b, b as u32);
    }
}

/// A duplicate-free sequence of indices below `n` has at most `n` elements.
pub proof fn lemma_dupfree_bounded_len(s: Seq<usize>, n: nat)
    requires
        s.no_duplicates(),
        forall|k: int| 0 <= k < s.len() ==> (s[k] as nat) < n,
    ensures
        s.len() <= n,
{
    let si = s.map_values(|x: usize| x as int);
    assert(si.no_duplicates()) by {
        assert forall|p: int, q: int|
            0 <= p < si.len() && 0 <= q < si.len() && p != q implies si[p] != si[q] by {
            assert(s[p] != s[q]);
        }
    }
    si.unique_seq_to_set();
    let range = vstd::set_lib::set_int_range(0, n as int);
    vstd::set_lib::lemma_int_range(0, n as int);
    assert(si.to_set().subset_of(range)) by {
        assert forall|x: int| si.to_set().contains(x) implies range.contains(x) by {
            let k = choose|k: int| 0 <= k < si.len() && si[k] == x;
            assert((s[k] as nat) < n);
        }
    }
    vstd::set_lib::lemma_len_subset(si.to_set(), range);
}

/// A strictly sorted sequence of indices.
pub open spec fn strictly_sorted(s: Seq<usize>) -> bool {
    forall|p: int, q: int| 0 <= p < q < s.len() ==> s[p] < s[q]
}

/// Inserts `x` into a strictly sorted vector, keeping it strictly sorted;
/// a present element is not inserted twice.
pub fn insert_sorted(v: &mut Vec<usize>, x: usize)
    requires
        strictly_sorted(old(v)@),
    ensures
        strictly_sorted(final(v)@),
        final(v)@.contains(x),
        forall|y: usize| old(v)@.contains(y) ==> final(v)@.contains(y),
        forall|y: usize| final(v)@.contains(y) ==> old(v)@.contains(y) || y == x,
{
    let ghost orig = v@;
    let mut i: usize = 0;
    while i < v.len() && v[i as usize] < x
        invariant
            strictly_sorted(v@),
            v@ == orig,
            i <= v@.len(),
            forall|k: int| 0 <= k < i ==> v@[k] < x,
        decreases v@.len() - i,
    {
        i = i + 1;
    }
    if i < v.len() && v[i as usize] == x {
        assert(v@.contains(x));
        return ;
    }
    assert(forall|k: int| i <= k < orig.len() ==> x <= orig[k] && x != orig[k]);
    v.insert(i, x);
    assert forall|p: int, q: int| 0 <= p < q < v@.len() implies v@[p] < v@[q] by {
        if q < i {
            assert(orig[p] < orig[q]);
        } else if p < i && q == i {
            assert(orig[p] < x);
        } else if p < i {
            assert(orig[p] < orig[q - 1]);
        } else if p == i {
            assert(x <= orig[q - 1] && x != orig[q - 1]);
        } else {
            assert(orig[p - 1] < orig[q - 1]);
        }
    }
    assert(v@[i as int] == x);
    assert forall|y: usize| v@.contains(y) implies orig.contains(y) || y == x by {
        let k = choose|k: int| 0 <= k < v@.len() && v@[k] == y;
        if k < i {
            assert(orig[k] == y);
        } else if k > i {
            assert(orig[k - 1] == y);
        }
    }
    assert forall|y: usize| orig.contains(y) implies v@.contains(y) by {
        let k = choose|k: int| 0 <= k < orig.len() && orig[k] == y;
        if k < i {
            assert(v@[k] == y);
        } else {
            assert(v@[k + 1] == y);
        }
    }
}

/// Appends `x` if it is absent, keeping the vector duplicate-free.
pub fn push_if_absent(v: &mut Vec<usize>, x: usize)
    requires
        old(v)@.no_duplicates(),
    ensures
        final(v)@.no_duplicates(),
        forall|y: usize| final(v)@.contains(y) <==> (old(v)@.contains(y) || y == x),
        final(v)@ == old(v)@ || final(v)@ == old(v)@.push(x),
{
    let mut i: usize = 0;
    while i < v.len()
        invariant
            v@ == old(v)@,
            v@.no_duplicates(),
            i <= v@.len(),
            forall|k: int| 0 <= k < i ==> v@[k] != x,
        decreases v@.len() - i,
    {
        if v[i] == x {
            assert(v@.contains(x));
            return ;
        }
        i = i + 1;
    }
    assert(!v@.contains(x));
    v.push(x);
    assert(v@.no_duplicates()) by {
        assert(forall|k: int| 0 <= k < old(v)@.len() ==> v@[k] == old(v)@[k]);
    }
}

/// Whether a character vector contains `c`.
pub fn vec_contains_char(v: &Vec<char>, c: char) -> (r: bool)
    ensures
        r == v@.contains(c),
{
    let mut i: usize = 0;
    while i < v.len()
        invariant
            i <= v@.len(),
            forall|k: int| 0 <= k < i ==> v@[k] != c,
        decreases v@.len() - i,
    {
        if v[i] == c {
            assert(v@.contains(c));
            return true;
        }
        i = i + 1;
    }
    assert(!v@.contains(c));
    false
}

/// Appends `c` if it is absent, keeping the vector duplicate-free.
pub fn push_if_absent_char(v: &mut Vec<char>, c: char)
    requires
        old(v)@.no_duplicates(),
    ensures
        final(v)@.no_duplicates(),
        forall|d: char| #[trigger] final(v)@.contains(d) <==> (old(v)@.contains(d) || d == c),
        final(v)@ == old(v)@ || final(v)@ == old(v)@.push(c),
{
    let mut i: usize = 0;
    while i < v.len()
        invariant
            v@ == old(v)@,
            v@.no_duplicates(),
            i <= v@.len(),
            forall|k: int| 0 <= k < i ==> v@[k] != c,
        decreases v@.len() - i,
    {
        if v[i] == c {
            assert(v@.contains(c));
            return ;
        }
        i = i + 1;
    }
    assert(!v@.contains(c));
    v.push(c);
    assert(v@.no_duplicates()) by {
        assert(forall|k: int| 0 <= k < old(v)@.len() ==> v@[k] == old(v)@[k]);
    }
}

/// Adds every character of `src` to `dst`, keeping `dst` duplicate-free.
pub fn merge_chars(dst: &mut Vec<char>, src: &Vec<char>)
    requires
        old(dst)@.no_duplicates(),
    ensures
        final(dst)@.no_duplicates(),
        forall|d: char|
            #[trigger] final(dst)@.contains(d) <==> (old(dst)@.contains(d) || src@.contains(d)),
{
    let mut i: usize = 0;
    while i < src.len()
        invariant
            i <= src@.len(),
            dst@.no_duplicates(),
            forall|d: char|
                #[trigger] dst@.contains(d) <==> (old(dst)@.contains(d) || src@.subrange(
                    0,
                    i as int,
                ).contains(d)),
        decreases src@.len() - i,
    {
        let ghost pre = dst@;
        let c = src[i];
        assert(c == src@[i as int]);
        push_if_absent_char(dst, c);
        assert(src@.subrange(0, i + 1 as int) =~= src@.subrange(0, i as int).push(
            src@[i as int],
        ));
        assert forall|d: char|
            #[trigger] dst@.contains(d) <==> (old(dst)@.contains(d) || src@.subrange(
                0,
                i + 1 as int,
            ).contains(d)) by {
            assert(dst@.contains(d) <==> pre.contains(d) || d == c);
            assert(src@.subrange(0, i + 1 as int).contains(d) <==> src@.subrange(
                0,
                i as int,
            ).contains(d) || d == src@[i as int]);
        }
        i = i + 1;
    }
    assert(src@.subrange(0, src@.len() as int) =~= src@);
}

/// Adds every character with a scalar value between `start` and `end`
/// (inclusive) to `dst`, keeping it duplicate-free.
pub fn range_chars_into(dst: &mut Vec<char>, start: char, end: char)
    requires
        old(dst)@.no_duplicates(),
        start as u32 <= end as u32,
        end as u32 <= 126,
    ensures
        final(dst)@.no_duplicates(),
        forall|d: char|
            #[trigger] final(dst)@.contains(d) <==> (old(dst)@.contains(d) || (start as u32 <= d
                as u32 && d as u32 <= end as u32)),
{
    let lo = start as u32;
    let hi = end as u32;
    let mut code: u32 = lo;
    while code <= hi
        invariant
            lo <= code <= hi + 1,
            hi <= 126,
            dst@.no_duplicates(),
            forall|d: char|
                #[trigger] dst@.contains(d) <==> (old(dst)@.contains(d) || (lo <= d as u32 && (d
                    as u32) < code)),
        decreases hi + 1 - code,
    {
        let ghost pre = dst@;
        let c = (code as u8) as char;
        assert(c as u32 == code);
        push_if_absent_char(dst, c);
        assert forall|d: char|
            #[trigger] dst@.contains(d) <==> (old(dst)@.contains(d) || (lo <= d as u32 && (d
                as u32) < code + 1)) by {
            char_cast_injective(d, c);
            assert(dst@.contains(d) <==> pre.contains(d) || d == c);
        }
        code = code + 1;
    }
}

/// A fresh copy of an index vector.
pub fn copy_indices(v: &Vec<usize>) -> (r: Vec<usize>)
    ensures
        r@ == v@,
{
    let mut r: Vec<usize> = Vec::new();
    let mut i: usize = 0;
    while i < v.len()
        invariant
            i <= v@.len(),
            r@ == v@.subrange(0, i as int),
        decreases v@.len() - i,
    {
        r.push(v[i]);
        assert(r@ =~= v@.subrange(0, i + 1 as int));
        i = i + 1;
    }
    assert(v@.subrange(0, v@.len() as int) =~= v@);
    r
}

/// Whether two index vectors hold the same sequence.
pub fn indices_eq(a: &Vec<usize>, b: &Vec<usize>) -> (r: bool)
    ensures
        r <==> a@ == b@,
{
    if a.len() != b.len() {
        assert(a@ != b@);
        return false;
    }
    let mut i: usize = 0;
    while i < a.len()
        invariant
            a@.len() == b@.len(),
            i <= a@.len(),
            forall|k: int| 0 <= k < i ==> a@[k] == b@[k],
        decreases a@.len() - i,
    {
        if a[i] != b[i] {
            assert(a@[i as int] != b@[i as int]);
            return false;
        }
        i = i + 1;
    }
    assert(a@ =~= b@);
    true
}

/// Two strictly sorted sequences with the same members are the same sequence.
pub proof fn lemma_sorted_same_members(a: Seq<usize>, b: Seq<usize>)
    requires
        strictly_sorted(a),
        strictly_sorted(b),
        forall|y: usize| a.contains(y) <==> b.contains(y),
    ensures
        a == b,
    decreases a.len(),
{
    if a.len() == 0 {
        if b.len() > 0 {
            assert(b.contains(b[0]));
            assert(a.contains(b[0]));
        }
        assert(a =~= b);
    } else if b.len() == 0 {
        assert(a.contains(a[0]));
        assert(b.contains(a[0]));
    } else {
        assert(a.contains(a[0]) && b.contains(b[0]));
        assert(b.contains(a[0]) && a.contains(b[0]));
        let ka = choose|k: int| 0 <= k < b.len() && b[k] == a[0];
        let kb = choose|k: int| 0 <= k < a.len() && a[k] == b[0];
        assert(b[0] <= b[ka] && a[0] <= a[kb]);
        assert(a[0] == b[0]);
        let ta = a.drop_first();
        let tb = b.drop_first();
        assert(strictly_sorted(ta)) by {
            assert(forall|p: int, q: int| 0 <= p < q < ta.len() ==> ta[p] == a[p + 1] && ta[q] == a[q + 1]);
        }
        assert(strictly_sorted(tb)) by {
            assert(forall|p: int, q: int| 0 <= p < q < tb.len() ==> tb[p] == b[p + 1] && tb[q] == b[q + 1]);
        }
        assert forall|y: usize| ta.contains(y) <==> tb.contains(y) by {
            if ta.contains(y) {
                let k = choose|k: int| 0 <= k < ta.len() && ta[k] == y;
                assert(a[k + 1] == y);
                assert(a.contains(y));
                assert(a[0] < a[k + 1]);
                assert(b.contains(y));
                let m = choose|m: int| 0 <= m < b.len() && b[m] == y;
                assert(m != 0);
                assert(tb[m - 1] == y);
                assert(tb.contains(y));
            }
            if tb.contains(y) {
                let k = choose|k: int| 0 <= k < tb.len() && tb[k] == y;
                assert(b[k + 1] == y);
                assert(b.contains(y));
                assert(b[0] < b[k + 1]);
                assert(a.contains(y));
                let m = choose|m: int| 0 <= m < a.len() && a[m] == y;
                assert(m != 0);
                assert(ta[m - 1] == y);
                assert(ta.contains(y));
            }
        }
        lemma_sorted_same_members(ta, tb);
        assert(a =~= b) by {
            assert(forall|k: int| 1 <= k < a.len() ==> a[k] == ta[k - 1] && b[k] == tb[k - 1]);
        }
    }
}

/// The value of a key: the sum of one bit per member.
pub open spec fn key_enc(s: Seq<usize>) -> nat
    decreases s.len(),
{
    if s.len() == 0 {
        0
    } else {
        key_enc(s.drop_last()) + vstd::arithmetic::power2::pow2(s.last() as nat)
    }
}

/// A strictly sorted key over indices below `m` encodes below `pow2(m)`.
pub proof fn lemma_key_enc_bound(s: Seq<usize>, m: nat)
    requires
        strictly_sorted(s),
        forall|k: int| 0 <= k < s.len() ==> (#[trigger] s[k] as nat) < m,
    ensures
        key_enc(s) < vstd::arithmetic::power2::pow2(m),
    decreases s.len(),
{
    vstd::arithmetic::power2::lemma_pow2_pos(m);
    if s.len() > 0 {
        let last = s.last() as nat;
        let pre = s.drop_last();
        assert(strictly_sorted(pre)) by {
            assert(forall|p: int, q: int|
                0 <= p < q < pre.len() ==> pre[p] == s[p] && pre[q] == s[q]);
        }
        assert forall|k: int| 0 <= k < pre.len() implies (#[trigger] pre[k] as nat) < last by {
            assert(pre[k] == s[k] && s[k] < s[s.len() - 1]);
        }
        lemma_key_enc_bound(pre, last);
        assert(vstd::arithmetic::power2::pow2(last) + vstd::arithmetic::power2::pow2(last)
            == vstd::arithmetic::power2::pow2(last + 1)) by {
            vstd::arithmetic::power2::lemma_pow2_unfold(last + 1);
        }
        if last + 1 < m {
            vstd::arithmetic::power2::lemma_pow2_strictly_increases(last + 1, m);
        }
    }
}

/// Distinct strictly sorted keys have distinct encodings.
pub proof fn lemma_key_enc_injective(a: Seq<usize>, b: Seq<usize>)
    requires
        strictly_sorted(a),
        strictly_sorted(b),
        key_enc(a) == key_enc(b),
    ensures
        a == b,
    decreases a.len() + b.len(),
{
    if a.len() == 0 && b.len() == 0 {
        assert(a =~= b);
    } else if a.len() == 0 {
        vstd::arithmetic::power2::lemma_pow2_pos(b.last() as nat);
        assert(key_enc(b) > 0);
        assert(false);
    } else if b.len() == 0 {
        vstd::arithmetic::power2::lemma_pow2_pos(a.last() as nat);
        assert(key_enc(a) > 0);
        assert(false);
    } else {
        let la = a.last() as nat;
        let lb = b.last() as nat;
        if la < lb {
            lemma_key_enc_bound(a, la + 1);
            if la + 1 < lb {
                vstd::arithmetic::power2::lemma_pow2_strictly_increases(la + 1, lb);
            }
            assert(key_enc(b) >= vstd::arithmetic::power2::pow2(lb));
            assert(false);
        } else if lb < la {
            lemma_key_enc_bound(b, lb + 1);
            if lb + 1 < la {
                vstd::arithmetic::power2::lemma_pow2_strictly_increases(lb + 1, la);
            }
            assert(key_enc(a) >= vstd::arithmetic::power2::pow2(la));
            assert(false);
        } else {
            let pa = a.drop_last();
            let pb = b.drop_last();
            assert(strictly_sorted(pa)) by {
                assert(forall|p: int, q: int|
                    0 <= p < q < pa.len() ==> pa[p] == a[p] && pa[q] == a[q]);
            }
            assert(strictly_sorted(pb)) by {
                assert(forall|p: int, q: int|
                    0 <= p < q < pb.len() ==> pb[p] == b[p] && pb[q] == b[q]);
            }
            lemma_key_enc_injective(pa, pb);
            assert(a =~= b) by {
                assert(forall|k: int| 0 <= k < a.len() - 1 ==> a[k] == pa[k] && b[k] == pb[k]);
                assert(a[a.len() - 1] == b[b.len() - 1]);
            }
        }
    }
}

/// A family of pairwise distinct, strictly sorted keys over indices below `n`
/// has at most `pow2(n)` members.
pub proof fn lemma_distinct_sorted_keys_bound(keys: Seq<Seq<usize>>, n: nat)
    requires
        forall|i: int| 0 <= i < keys.len() ==> strictly_sorted(#[trigger] keys[i]),
        forall|i: int, k: int|
            0 <= i < keys.len() && 0 <= k < keys[i].len() ==> ((#[trigger] keys[i][k]) as nat) < n,
        forall|i: int, j: int| 0 <= i < j < keys.len() ==> keys[i] != keys[j],
    ensures
        keys.len() <= vstd::arithmetic::power2::pow2(n),
{
    let encs = keys.map_values(|s: Seq<usize>| key_enc(s) as int);
    assert(encs.no_duplicates()) by {
        assert forall|i: int, j: int|
            0 <= i < encs.len() && 0 <= j < encs.len() && i != j implies encs[i] != encs[j] by {
            if encs[i] == encs[j] {
                lemma_key_enc_injective(keys[i], keys[j]);
            }
        }
    }
    encs.unique_seq_to_set();
    let bound = vstd::arithmetic::power2::pow2(n) as int;
    let range = vstd::set_lib::set_int_range(0, bound);
    vstd::set_lib::lemma_int_range(0, bound);
    assert(encs.to_set().subset_of(range)) by {
        assert forall|x: int| encs.to_set().contains(x) implies range.contains(x) by {
            let k = choose|k: int| 0 <= k < encs.len() && encs[k] == x;
            lemma_key_enc_bound(keys[k], n);
        }
    }
    vstd::set_lib::lemma_len_subset(encs.to_set(), range);
}

} // verus!


