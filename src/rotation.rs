use vstd::prelude::*;

use crate::lex::{cmp_ranges, lemma_lex_cmp_zero, lex_cmp};
use crate::tree::Tree;

verus! {

/// Three-way lexicographic comparison of sequences of codes, each code compared by
/// `lex_cmp`.
pub open spec fn codes_cmp(a: Seq<Seq<u8>>, b: Seq<Seq<u8>>) -> int
    decreases a.len(),
{
    if a.len() == 0 {
        if b.len() == 0 { 0 } else { -1 }
    } else if b.len() == 0 {
        1
    } else if lex_cmp(a[0], b[0]) < 0 {
        -1
    } else if lex_cmp(a[0], b[0]) > 0 {
        1
    } else {
        codes_cmp(a.drop_first(), b.drop_first())
    }
}

/// `s` read cyclically from position `r` on.
pub open spec fn rotate(s: Seq<Seq<u8>>, r: int) -> Seq<Seq<u8>> {
    Seq::new(s.len(), |i: int| s[(i + r) % (s.len() as int)])
}

/// No rotation of `s` is lexicographically smaller than `s` itself.
pub open spec fn min_rotation(s: Seq<Seq<u8>>) -> bool {
    forall|r: int| 1 <= r < s.len() ==> codes_cmp(s, #[trigger] rotate(s, r)) <= 0
}

/// The view of a sequence of trees as a sequence of codes.
pub open spec fn codes(s: Seq<Tree>) -> Seq<Seq<u8>> {
    Seq::new(s.len(), |i: int| s[i]@)
}

/// After a common prefix of length `k` the comparison is decided by what follows.
pub proof fn lemma_codes_cmp_skip(a: Seq<Seq<u8>>, b: Seq<Seq<u8>>, k: int)
    requires
        0 <= k <= a.len(),
        k <= b.len(),
        a.subrange(0, k) == b.subrange(0, k),
    ensures
        codes_cmp(a, b) == codes_cmp(
            a.subrange(k, a.len() as int),
            b.subrange(k, b.len() as int),
        ),
    decreases k,
{
    if k > 0 {
        assert(a[0] == a.subrange(0, k)[0]);
        assert(b[0] == b.subrange(0, k)[0]);
        lemma_lex_cmp_zero(a[0], b[0]);
        assert(a.drop_first().subrange(0, k - 1) =~= a.subrange(0, k).drop_first());
        assert(b.drop_first().subrange(0, k - 1) =~= b.subrange(0, k).drop_first());
        lemma_codes_cmp_skip(a.drop_first(), b.drop_first(), k - 1);
        assert(a.drop_first().subrange(k - 1, a.len() - 1) =~= a.subrange(k, a.len() as int));
        assert(b.drop_first().subrange(k - 1, b.len() - 1) =~= b.subrange(k, b.len() as int));
    } else {
        assert(a.subrange(0, a.len() as int) =~= a);
        assert(b.subrange(0, b.len() as int) =~= b);
    }
}

/// Swapping the arguments negates the comparison.
pub proof fn lemma_lex_cmp_antisym(a: Seq<u8>, b: Seq<u8>)
    ensures
        lex_cmp(a, b) == -lex_cmp(b, a),
    decreases a.len(),
{
    if a.len() > 0 && b.len() > 0 {
        lemma_lex_cmp_antisym(a.drop_first(), b.drop_first());
    }
}

/// Swapping the arguments negates the comparison.
pub proof fn lemma_codes_cmp_antisym(a: Seq<Seq<u8>>, b: Seq<Seq<u8>>)
    ensures
        codes_cmp(a, b) == -codes_cmp(b, a),
    decreases a.len(),
{
    if a.len() > 0 && b.len() > 0 {
        lemma_lex_cmp_antisym(a[0], b[0]);
        lemma_codes_cmp_antisym(a.drop_first(), b.drop_first());
    }
}

/// The comparison is zero exactly on equal sequences.
pub proof fn lemma_codes_cmp_zero(a: Seq<Seq<u8>>, b: Seq<Seq<u8>>)
    ensures
        (codes_cmp(a, b) == 0) == (a == b),
    decreases a.len(),
{
    if a.len() > 0 && b.len() > 0 {
        lemma_lex_cmp_zero(a[0], b[0]);
        lemma_codes_cmp_zero(a.drop_first(), b.drop_first());
        if a[0] == b[0] && a.drop_first() == b.drop_first() {
            assert(a =~= seq![a[0]] + a.drop_first());
            assert(b =~= seq![b[0]] + b.drop_first());
        }
        if a == b {
            assert(a.drop_first() == b.drop_first());
        }
    } else if a.len() == 0 && b.len() == 0 {
        assert(a =~= b);
    }
}

/// Exactly one rotation of each cyclic class passes the test: when `s` and its rotation
/// by `k` are both least rotations, the rotation leaves `s` unchanged.
pub proof fn lemma_min_rotation_unique(s: Seq<Seq<u8>>, k: int)
    requires
        0 < k < s.len(),
        min_rotation(s),
        min_rotation(rotate(s, k)),
    ensures
        rotate(s, k) == s,
{
    let n = s.len() as int;
    let t = rotate(s, k);
    assert(codes_cmp(s, rotate(s, k)) <= 0);
    assert(codes_cmp(t, rotate(t, n - k)) <= 0);
    assert forall|i: int| 0 <= i < n implies #[trigger] rotate(t, n - k)[i] == s[i] by {
        let j = (i + (n - k)) % n;
        assert(0 <= j < n) by (nonlinear_arith)
            requires
                j == (i + (n - k)) % n,
                n > 0,
        ;
        let q = (j + k) % n;
        assert(q == i) by (nonlinear_arith)
            requires
                j == (i + (n - k)) % n,
                q == (j + k) % n,
                0 <= i < n,
                0 < k < n,
        ;
    }
    assert(rotate(t, n - k) =~= s);
    lemma_codes_cmp_antisym(s, t);
    lemma_codes_cmp_zero(s, t);
}

/// The order on codes is transitive, and strict as soon as one step is.
pub proof fn lemma_lex_cmp_trans(a: Seq<u8>, b: Seq<u8>, c: Seq<u8>)
    requires
        lex_cmp(a, b) <= 0,
        lex_cmp(b, c) <= 0,
    ensures
        lex_cmp(a, c) <= 0,
        lex_cmp(a, b) < 0 || lex_cmp(b, c) < 0 ==> lex_cmp(a, c) < 0,
    decreases a.len(),
{
    if a.len() > 0 && b.len() > 0 && c.len() > 0 {
        if a[0] == b[0] && b[0] == c[0] {
            lemma_lex_cmp_trans(a.drop_first(), b.drop_first(), c.drop_first());
        }
    }
}

/// The order on sequences of codes is transitive, and strict as soon as one step is.
pub proof fn lemma_codes_cmp_trans(a: Seq<Seq<u8>>, b: Seq<Seq<u8>>, c: Seq<Seq<u8>>)
    requires
        codes_cmp(a, b) <= 0,
        codes_cmp(b, c) <= 0,
    ensures
        codes_cmp(a, c) <= 0,
        codes_cmp(a, b) < 0 || codes_cmp(b, c) < 0 ==> codes_cmp(a, c) < 0,
    decreases a.len(),
{
    if a.len() > 0 && b.len() > 0 && c.len() > 0 {
        lemma_lex_cmp_zero(a[0], b[0]);
        lemma_lex_cmp_zero(b[0], c[0]);
        lemma_lex_cmp_zero(a[0], c[0]);
        if lex_cmp(a[0], b[0]) <= 0 && lex_cmp(b[0], c[0]) <= 0 {
            lemma_lex_cmp_trans(a[0], b[0], c[0]);
        }
        if a[0] == b[0] && b[0] == c[0] {
            lemma_codes_cmp_trans(a.drop_first(), b.drop_first(), c.drop_first());
        }
    }
}

/// Rotating by nothing changes nothing.
pub proof fn lemma_rotate_zero(s: Seq<Seq<u8>>)
    ensures
        rotate(s, 0) == s,
        codes_cmp(s, s) == 0,
{
    let n = s.len() as int;
    assert forall|i: int| 0 <= i < n implies #[trigger] rotate(s, 0)[i] == s[i] by {
        assert((i + 0) % n == i) by (nonlinear_arith)
            requires
                0 <= i < n,
        ;
    }
    assert(rotate(s, 0) =~= s);
    lemma_codes_cmp_zero(s, s);
}

/// When `s` and its rotation by `j` agree on `k` codes and then the rotation is larger,
/// the rotations by `j` to `j + k` are all larger than `s`, provided those by `1` to
/// `j - 1` are not smaller.
pub proof fn lemma_shift_greater(s: Seq<Seq<u8>>, j: int, k: int, p: int)
    requires
        1 <= j < s.len(),
        0 <= p <= k < s.len(),
        forall|t: int| 0 <= t < k ==> s[t] == #[trigger] s[(j + t) % (s.len() as int)],
        lex_cmp(s[k], s[(j + k) % (s.len() as int)]) < 0,
        forall|q: int| 1 <= q < j ==> codes_cmp(s, #[trigger] rotate(s, q)) <= 0,
    ensures
        codes_cmp(s, rotate(s, j + p)) < 0,
    decreases p,
{
    let n = s.len() as int;
    let rp = rotate(s, p);
    let rj = rotate(s, j + p);
    let m = k - p;
    assert forall|t: int| 0 <= t < m implies #[trigger] rp[t] == rj[t] by {
        assert((t + p) % n == t + p) by (nonlinear_arith)
            requires
                0 <= t + p < n,
        ;
        assert(s[t + p] == s[(j + (t + p)) % n]);
        assert(j + (t + p) == t + (j + p));
    }
    assert(rp.subrange(0, m) =~= rj.subrange(0, m));
    lemma_codes_cmp_skip(rp, rj, m);
    assert((m + p) % n == k) by (nonlinear_arith)
        requires
            m + p == k,
            0 <= k < n,
    ;
    assert(rp.subrange(m, n)[0] == s[k]);
    assert(rj.subrange(m, n)[0] == s[(j + k) % n]);
    assert(codes_cmp(rp, rj) < 0);
    if p == 0 {
        lemma_rotate_zero(s);
    } else if p >= j {
        lemma_shift_greater(s, j, k, p - j);
        assert(j + (p - j) == p);
    } else {
        assert(codes_cmp(s, rotate(s, p)) <= 0);
    }
    assert(codes_cmp(s, rp) <= 0);
    lemma_codes_cmp_trans(s, rp, rj);
}

/// When rotating by `j` leaves `s` unchanged, rotating by `q` is rotating by `q - j`.
pub proof fn lemma_period(s: Seq<Seq<u8>>, j: int, q: int)
    requires
        1 <= j <= q < s.len(),
        forall|t: int| 0 <= t < s.len() ==> s[t] == #[trigger] s[(j + t) % (s.len() as int)],
        forall|r: int| 1 <= r < j ==> codes_cmp(s, #[trigger] rotate(s, r)) <= 0,
    ensures
        codes_cmp(s, rotate(s, q)) <= 0,
    decreases q,
{
    let n = s.len() as int;
    assert forall|t: int| 0 <= t < n implies #[trigger] rotate(s, q)[t] == rotate(s, q - j)[t] by {
        let y = t + q - j;
        let x = y % n;
        vstd::arithmetic::div_mod::lemma_mod_bound(y, n);
        vstd::arithmetic::div_mod::lemma_add_mod_noop(j, y, n);
        vstd::arithmetic::div_mod::lemma_small_mod(j as nat, n as nat);
        assert(j + y == t + q);
        assert((j + x) % n == (t + q) % n);
        assert(s[x] == s[(j + x) % n]);
    }
    assert(rotate(s, q) =~= rotate(s, q - j));
    if q - j == 0 {
        lemma_rotate_zero(s);
    } else if q - j >= j {
        lemma_period(s, j, q - j);
    }
}

/// Rotating twice is rotating once by the sum.
pub proof fn lemma_rotate_rotate(s: Seq<Seq<u8>>, k: int, r: int)
    requires
        0 <= k < s.len(),
        0 <= r < s.len(),
    ensures
        rotate(rotate(s, k), r) == rotate(s, (k + r) % (s.len() as int)),
{
    let n = s.len() as int;
    assert forall|i: int| 0 <= i < n implies #[trigger] rotate(rotate(s, k), r)[i] == rotate(
        s,
        (k + r) % n,
    )[i] by {
        let x = (i + r) % n;
        vstd::arithmetic::div_mod::lemma_mod_bound(i + r, n);
        vstd::arithmetic::div_mod::lemma_add_mod_noop(i + r, k, n);
        vstd::arithmetic::div_mod::lemma_small_mod(k as nat, n as nat);
        vstd::arithmetic::div_mod::lemma_add_mod_noop(i, k + r, n);
        vstd::arithmetic::div_mod::lemma_small_mod(i as nat, n as nat);
        vstd::arithmetic::div_mod::lemma_mod_bound(k + r, n);
        vstd::arithmetic::div_mod::lemma_small_mod(((k + r) % n) as nat, n as nat);
        assert((x + k) % n == (i + r + k) % n);
        assert((i + (k + r) % n) % n == (i + (k + r)) % n);
    }
    assert(rotate(rotate(s, k), r) =~= rotate(s, (k + r) % n));
}

/// Rotation `k` of `s` is not larger than any of the first `m` rotations.
pub open spec fn least_among(s: Seq<Seq<u8>>, k: int, m: int) -> bool {
    forall|q: int| 0 <= q < m ==> codes_cmp(rotate(s, k), #[trigger] rotate(s, q)) <= 0
}

/// Among the first `m` rotations of `s` one is least.
pub proof fn lemma_least_of_first(s: Seq<Seq<u8>>, m: int)
    requires
        1 <= m <= s.len(),
    ensures
        exists|k: int| 0 <= k < m && #[trigger] least_among(s, k, m),
    decreases m,
{
    if m == 1 {
        lemma_codes_cmp_zero(rotate(s, 0), rotate(s, 0));
        assert(least_among(s, 0, 1));
    } else {
        lemma_least_of_first(s, m - 1);
        let k = choose|k: int| 0 <= k < m - 1 && #[trigger] least_among(s, k, m - 1);
        let last = rotate(s, m - 1);
        if codes_cmp(rotate(s, k), last) <= 0 {
            assert(least_among(s, k, m));
        } else {
            lemma_codes_cmp_antisym(rotate(s, k), last);
            assert forall|q: int| 0 <= q < m implies codes_cmp(last, #[trigger] rotate(s, q)) <= 0 by {
                if q < m - 1 {
                    lemma_codes_cmp_trans(last, rotate(s, k), rotate(s, q));
                } else {
                    lemma_codes_cmp_zero(last, last);
                }
            }
            assert(least_among(s, m - 1, m));
        }
    }
}

/// Every cyclic class has a rotation that passes the test: some rotation of `s` is the
/// least of its own rotations.
pub proof fn lemma_min_rotation_exists(s: Seq<Seq<u8>>)
    requires
        s.len() >= 1,
    ensures
        exists|k: int| 0 <= k < s.len() && min_rotation(#[trigger] rotate(s, k)),
{
    let n = s.len() as int;
    lemma_least_of_first(s, n);
    let k = choose|k: int| 0 <= k < n && #[trigger] least_among(s, k, n);
    let t = rotate(s, k);
    assert forall|r: int| 1 <= r < t.len() implies codes_cmp(t, #[trigger] rotate(t, r)) <= 0 by {
        lemma_rotate_rotate(s, k, r);
        vstd::arithmetic::div_mod::lemma_mod_bound(k + r, n);
        assert(codes_cmp(t, rotate(s, (k + r) % n)) <= 0);
    }
    assert(min_rotation(t));
}

/// Which of the two interchangeable least-rotation tests to run.
#[derive(Clone, Copy, Debug, PartialEq, Eq)]
pub enum RotationTest {
    /// Each rotation compared with the sequence, up to the first difference.
    Naive,
    /// A single candidate rotation that jumps past rotations shown larger.
    Linear,
}

/// Compares two tree codes: -1, 0 or 1.
pub fn cmp_trees(a: &Tree, b: &Tree) -> (r: i8)
    ensures
        r as int == lex_cmp(a@, b@),
{
    proof {
        assert(a@.subrange(0, a@.len() as int) =~= a@);
        assert(b@.subrange(0, b@.len() as int) =~= b@);
    }
    cmp_ranges(a.as_slice(), 0, a.len(), b.as_slice(), 0, b.len())
}

/// Whether `s` is the least of its rotations: each rotation is compared with `s`
/// position by position up to the first difference.
pub fn is_min_rotation(s: &[Tree]) -> (r: bool)
    ensures
        r == min_rotation(codes(s@)),
{
    let n = s.len();
    let ghost cs = codes(s@);
    let mut r: usize = 1;
    while r < n
        invariant
            n == s@.len(),
            cs == codes(s@),
            1 <= r || n == 0,
            forall|q: int| 1 <= q < r && q < n ==> codes_cmp(cs, #[trigger] rotate(cs, q)) <= 0,
        decreases n - r,
    {
        let ghost rs = rotate(cs, r as int);
        let mut i: usize = 0;
        while i < n
            invariant
                n == s@.len(),
                cs == codes(s@),
                rs == rotate(cs, r as int),
                1 <= r < n,
                i <= n,
                cs.subrange(0, i as int) == rs.subrange(0, i as int),
                i == n ==> codes_cmp(cs, rs) <= 0,
            ensures
                codes_cmp(cs, rs) <= 0,
            decreases n - i,
        {
            let j = if i >= n - r {
                i - (n - r)
            } else {
                i + r
            };
            proof {
                let (ii, rr, nn) = (i as int, r as int, n as int);
                if ii + rr >= nn {
                    assert((ii + rr) % nn == ii + rr - nn) by (nonlinear_arith)
                        requires
                            nn <= ii + rr < 2 * nn,
                    ;
                } else {
                    assert((ii + rr) % nn == ii + rr) by (nonlinear_arith)
                        requires
                            0 <= ii + rr < nn,
                    ;
                }
            }
            let c = cmp_trees(&s[i], &s[j]);
            proof {
                lemma_codes_cmp_skip(cs, rs, i as int);
                let ta = cs.subrange(i as int, n as int);
                let tb = rs.subrange(i as int, n as int);
                assert(ta[0] == s@[i as int]@);
                assert(tb[0] == s@[j as int]@);
                lemma_lex_cmp_zero(ta[0], tb[0]);
            }
            if c > 0 {
                proof {
                    assert(!(codes_cmp(cs, rotate(cs, r as int)) <= 0));
                }
                return false;
            }
            if c < 0 {
                break;
            }
            proof {
                assert(cs.subrange(0, i + 1) =~= cs.subrange(0, i as int).push(cs[i as int]));
                assert(rs.subrange(0, i + 1) =~= rs.subrange(0, i as int).push(rs[i as int]));
            }
            i = i + 1;
            proof {
                if i == n {
                    lemma_codes_cmp_skip(cs, rs, n as int);
                }
            }
        }
        r = r + 1;
    }
    true
}

/// Whether `s` is the least of its rotations, in linear time: a single candidate
/// rotation `j` is compared with `s` from offset `k` on; when it turns out larger, every
/// rotation up to `j + k` is larger too and the candidate jumps past them.
pub fn is_min_rotation_linear(s: &[Tree]) -> (r: bool)
    ensures
        r == min_rotation(codes(s@)),
{
    let n = s.len();
    let ghost cs = codes(s@);
    if n <= 1 {
        return true;
    }
    let mut j: usize = 1;
    let mut k: usize = 0;
    while j < n && k < n
        invariant
            n == s@.len(),
            n >= 2,
            cs == codes(s@),
            1 <= j <= n,
            k <= n,
            k > 0 ==> j < n,
            forall|q: int| 1 <= q < j && q < n ==> codes_cmp(cs, #[trigger] rotate(cs, q)) <= 0,
            forall|t: int| 0 <= t < k ==> cs[t] == #[trigger] cs[(j + t) % (n as int)],
        decreases n - j, n - k,
    {
        let x = if k >= n - j {
            k - (n - j)
        } else {
            j + k
        };
        proof {
            let (jj, kk, nn) = (j as int, k as int, n as int);
            if jj + kk >= nn {
                assert((jj + kk) % nn == jj + kk - nn) by (nonlinear_arith)
                    requires
                        nn <= jj + kk < 2 * nn,
                ;
            } else {
                assert((jj + kk) % nn == jj + kk) by (nonlinear_arith)
                    requires
                        0 <= jj + kk < nn,
                ;
            }
        }
        let c = cmp_trees(&s[k], &s[x]);
        proof {
            lemma_lex_cmp_zero(cs[k as int], cs[x as int]);
        }
        if c == 0 {
            k = k + 1;
        } else if c < 0 {
            proof {
                assert forall|q: int| 1 <= q < j + k + 1 && q < n implies codes_cmp(cs, #[trigger] rotate(cs, q)) <= 0 by {
                    if q >= j {
                        lemma_shift_greater(cs, j as int, k as int, q - j);
                    }
                }
            }
            if k + 1 >= n - j {
                j = n;
            } else {
                j = j + k + 1;
            }
            k = 0;
        } else {
            proof {
                let rj = rotate(cs, j as int);
                assert forall|t: int| 0 <= t < k implies #[trigger] cs[t] == rj[t] by {
                    assert(j + t == t + j);
                }
                assert(cs.subrange(0, k as int) =~= rj.subrange(0, k as int));
                lemma_codes_cmp_skip(cs, rj, k as int);
                assert(cs.subrange(k as int, n as int)[0] == cs[k as int]);
                assert(rj.subrange(k as int, n as int)[0] == cs[x as int]);
                assert(codes_cmp(cs, rj) > 0);
            }
            return false;
        }
    }
    proof {
        if k >= n {
            assert forall|q: int| 1 <= q < n implies codes_cmp(cs, #[trigger] rotate(cs, q)) <= 0 by {
                if q >= j {
                    lemma_period(cs, j as int, q);
                }
            }
        }
    }
    true
}

/// Whether `s` is the least of its rotations, by the chosen test.
pub fn is_min_rotation_by(test: RotationTest, s: &[Tree]) -> (r: bool)
    ensures
        r == min_rotation(codes(s@)),
{
    match test {
        RotationTest::Naive => is_min_rotation(s),
        RotationTest::Linear => is_min_rotation_linear(s),
    }
}

} // verus!
