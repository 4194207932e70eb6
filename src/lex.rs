use vstd::prelude::*;

verus! {

/// Three-way lexicographic comparison of byte sequences: -1, 0 or 1.
pub open spec fn lex_cmp(a: Seq<u8>, b: Seq<u8>) -> int
    decreases a.len(),
{
    if a.len() == 0 {
        if b.len() == 0 { 0 } else { -1 }
    } else if b.len() == 0 {
        1
    } else if a[0] < b[0] {
        -1
    } else if a[0] > b[0] {
        1
    } else {
        lex_cmp(a.drop_first(), b.drop_first())
    }
}

/// `a <= b` in lexicographic order.
pub open spec fn lex_le(a: Seq<u8>, b: Seq<u8>) -> bool {
    lex_cmp(a, b) <= 0
}

/// After a common prefix of length `k` the comparison is decided by what follows.
pub proof fn lemma_lex_cmp_skip(a: Seq<u8>, b: Seq<u8>, k: int)
    requires
        0 <= k <= a.len(),
        k <= b.len(),
        a.subrange(0, k) == b.subrange(0, k),
    ensures
        lex_cmp(a, b) == lex_cmp(a.subrange(k, a.len() as int), b.subrange(k, b.len() as int)),
    decreases k,
{
    if k > 0 {
        assert(a[0] == a.subrange(0, k)[0]);
        assert(b[0] == b.subrange(0, k)[0]);
        assert(a.drop_first().subrange(0, k - 1) =~= a.subrange(0, k).drop_first());
        assert(b.drop_first().subrange(0, k - 1) =~= b.subrange(0, k).drop_first());
        lemma_lex_cmp_skip(a.drop_first(), b.drop_first(), k - 1);
        assert(a.drop_first().subrange(k - 1, a.len() - 1) =~= a.subrange(k, a.len() as int));
        assert(b.drop_first().subrange(k - 1, b.len() - 1) =~= b.subrange(k, b.len() as int));
    } else {
        assert(a.subrange(0, a.len() as int) =~= a);
        assert(b.subrange(0, b.len() as int) =~= b);
    }
}

/// The comparison is zero exactly on equal sequences.
pub proof fn lemma_lex_cmp_zero(a: Seq<u8>, b: Seq<u8>)
    ensures
        (lex_cmp(a, b) == 0) == (a == b),
        -1 <= lex_cmp(a, b) <= 1,
    decreases a.len(),
{
    if a.len() > 0 && b.len() > 0 {
        lemma_lex_cmp_zero(a.drop_first(), b.drop_first());
        if a[0] == b[0] && a.drop_first() == b.drop_first() {
            assert(a =~= seq![a[0]] + a.drop_first());
            assert(b =~= seq![b[0]] + b.drop_first());
        }
        if a == b {
            assert(a.drop_first() == b.drop_first());
        }
    } else if a.len() == 0 && b.len() == 0 {
        assert(a =~= b);
    }
}

/// Compares `a[a0..a1]` with `b[b0..b1]` lexicographically.
pub fn cmp_ranges(a: &[u8], a0: usize, a1: usize, b: &[u8], b0: usize, b1: usize) -> (r: i8)
    requires
        a0 <= a1 <= a@.len(),
        b0 <= b1 <= b@.len(),
    ensures
        r as int == lex_cmp(a@.subrange(a0 as int, a1 as int), b@.subrange(b0 as int, b1 as int)),
{
    let ghost sa = a@.subrange(a0 as int, a1 as int);
    let ghost sb = b@.subrange(b0 as int, b1 as int);
    let mut k: usize = 0;
    while a0 + k < a1 && b0 + k < b1
        invariant
            a0 <= a1 <= a@.len(),
            b0 <= b1 <= b@.len(),
            a0 + k <= a1,
            b0 + k <= b1,
            sa == a@.subrange(a0 as int, a1 as int),
            sb == b@.subrange(b0 as int, b1 as int),
            sa.subrange(0, k as int) == sb.subrange(0, k as int),
        decreases a1 - a0 - k,
    {
        let x = a[a0 + k];
        let y = b[b0 + k];
        proof {
            lemma_lex_cmp_skip(sa, sb, k as int);
            let ta = sa.subrange(k as int, sa.len() as int);
            let tb = sb.subrange(k as int, sb.len() as int);
            assert(ta[0] == x);
            assert(tb[0] == y);
        }
        if x < y {
            return -1;
        }
        if x > y {
            return 1;
        }
        proof {
            assert(sa.subrange(0, k + 1) =~= sa.subrange(0, k as int).push(x));
            assert(sb.subrange(0, k + 1) =~= sb.subrange(0, k as int).push(y));
        }
        k = k + 1;
    }
    proof {
        lemma_lex_cmp_skip(sa, sb, k as int);
    }
    if a0 + k < a1 {
        1
    } else if b0 + k < b1 {
        -1
    } else {
        0
    }
}

} // verus!
