use vstd::prelude::*;

use crate::comp::{lemma_shapes, lemma_size_concat, lemma_size_nonneg, total_size, well_formed, Comp};
use crate::rotation::codes;
use crate::tree::tree_shape;

verus! {

/// Position of the parent of vertex `j` in a tree code: the last `p <= q` whose subtree
/// reaches past `j`, or `-1` if there is none.
pub open spec fn parent_pos(t: Seq<u8>, j: int, q: int) -> int
    decreases q + 1,
{
    if q < 0 {
        -1
    } else if q + t[q] > j {
        q
    } else {
        parent_pos(t, j, q - 1)
    }
}

/// Number of vertices in the trees `c[0..k]`.
pub open spec fn offset(c: Seq<Seq<u8>>, k: int) -> int
    decreases k,
{
    if k <= 0 {
        0
    } else {
        offset(c, k - 1) + c[k - 1].len()
    }
}

/// The successor of vertex `j` of tree `k`: its parent in the tree, or, for the root, the
/// root of the next tree along the cycle.
pub open spec fn succ_of(c: Seq<Seq<u8>>, k: int, j: int) -> int {
    let p = parent_pos(c[k], j, j - 1);
    if p >= 0 {
        offset(c, k) + p
    } else if k + 1 < c.len() {
        offset(c, k + 1)
    } else {
        0
    }
}

/// The successors of the vertices of the trees `c[0..m]`, numbered tree after tree in
/// preorder.
pub open spec fn succ_prefix(c: Seq<Seq<u8>>, m: int) -> Seq<int>
    decreases m,
{
    if m <= 0 {
        Seq::empty()
    } else {
        succ_prefix(c, m - 1) + Seq::new(c[m - 1].len(), |j: int| succ_of(c, m - 1, j))
    }
}

/// Each vertex of the component mapped to its successor.
pub open spec fn successors_spec(c: Seq<Seq<u8>>) -> Seq<int> {
    succ_prefix(c, c.len() as int)
}

/// Entry `k` of the adjacency matrix, read row by row.
pub open spec fn adj_bit(succ: Seq<usize>, loopless: bool, k: int) -> bool {
    let n = succ.len() as int;
    0 <= k < n * n && succ[k / n] == k % n && !(loopless && k / n == k % n)
}

pub open spec fn bit_val(succ: Seq<usize>, loopless: bool, k: int, w: int) -> int {
    if adj_bit(succ, loopless, k) { w } else { 0 }
}

/// Six matrix entries starting at `6 g`, most significant first.
pub open spec fn group_val(succ: Seq<usize>, loopless: bool, g: int) -> int {
    bit_val(succ, loopless, 6 * g, 32) + bit_val(succ, loopless, 6 * g + 1, 16) + bit_val(
        succ,
        loopless,
        6 * g + 2,
        8,
    ) + bit_val(succ, loopless, 6 * g + 3, 4) + bit_val(succ, loopless, 6 * g + 4, 2) + bit_val(
        succ,
        loopless,
        6 * g + 5,
        1,
    )
}

/// The vertex count in digraph6: one byte below 63, else `~` and three 6-bit groups.
pub open spec fn size_code(n: int) -> Seq<u8> {
    if n < 63 {
        seq![(n + 63) as u8]
    } else {
        seq![126u8, (n / 4096 % 64 + 63) as u8, (n / 64 % 64 + 63) as u8, (n % 64 + 63) as u8]
    }
}

/// The digraph6 line of the functional digraph `succ`, without the newline.
pub open spec fn digraph6_spec(succ: Seq<usize>, loopless: bool) -> Seq<u8> {
    let n = succ.len() as int;
    seq![38u8] + size_code(n) + Seq::new(
        ((n * n + 5) / 6) as nat,
        |g: int| (group_val(succ, loopless, g) + 63) as u8,
    )
}

pub proof fn lemma_offset_len(c: Seq<Seq<u8>>, m: int)
    requires
        0 <= m <= c.len(),
    ensures
        succ_prefix(c, m).len() == offset(c, m),
        0 <= offset(c, m) <= total_size(c) - total_size(c.subrange(m, c.len() as int)),
    decreases m,
{
    if m > 0 {
        lemma_offset_len(c, m - 1);
        assert(c.subrange(m - 1, c.len() as int).drop_first() =~= c.subrange(m, c.len() as int));
        lemma_size_front(c.subrange(m - 1, c.len() as int));
    } else {
        assert(c.subrange(0, c.len() as int) =~= c);
        lemma_size_nonneg(c);
    }
}

/// The size of a nonempty sequence of trees is its first tree's and the rest's.
pub proof fn lemma_size_front(c: Seq<Seq<u8>>)
    requires
        c.len() >= 1,
    ensures
        total_size(c) == c[0].len() + total_size(c.drop_first()),
        total_size(c.drop_first()) >= 0,
{
    lemma_size_concat(seq![c[0]], c.drop_first());
    assert(seq![c[0]] + c.drop_first() =~= c);
    assert(seq![c[0]].drop_last() =~= Seq::<Seq<u8>>::empty());
    assert(total_size(Seq::<Seq<u8>>::empty()) == 0);
    lemma_size_nonneg(c.drop_first());
}

/// The successor of each vertex of a component: its parent, or for a tree's root the
/// root of the next tree along the cycle.
pub fn successors(c: &Comp) -> (r: Vec<usize>)
    requires
        well_formed(codes(c@)),
    ensures
        r@.len() == successors_spec(codes(c@)).len(),
        forall|v: int| 0 <= v < r@.len() ==> r@[v] as int == #[trigger] successors_spec(codes(c@))[v],
{
    let ghost cs = codes(c@);
    let mut r: Vec<usize> = Vec::new();
    let mut off: usize = 0;
    let mut k: usize = 0;
    proof {
        lemma_shapes(c@);
        lemma_offset_len(cs, 0);
    }
    while k < c.len()
        invariant
            cs == codes(c@),
            well_formed(cs),
            forall|q: int| 0 <= q < c@.len() ==> tree_shape(#[trigger] c@[q]@),
            k <= c@.len(),
            off == offset(cs, k as int),
            r@.len() == succ_prefix(cs, k as int).len(),
            forall|v: int| 0 <= v < r@.len() ==> r@[v] as int == #[trigger] succ_prefix(cs, k as int)[v],
        decreases c@.len() - k,
    {
        let t = &c[k];
        let ghost tk = cs[k as int];
        proof {
            assert(tk == t@);
            lemma_offset_len(cs, k as int);
            lemma_offset_len(cs, k + 1);
            lemma_size_nonneg(cs.subrange(k + 1, cs.len() as int));
        }
        let next_root: usize = if k + 1 < c.len() {
            off + t.len()
        } else {
            0
        };
        let ghost r0 = r@;
        let mut j: usize = 0;
        while j < t.len()
            invariant
                cs == codes(c@),
                tk == t@,
                tk == cs[k as int],
                k < c@.len(),
                j <= t@.len(),
                off == offset(cs, k as int),
                off + t@.len() <= 255,
                k + 1 < c@.len() ==> next_root == offset(cs, k + 1),
                k + 1 >= c@.len() ==> next_root == 0,
                r@.len() == r0.len() + j,
                forall|v: int| 0 <= v < r0.len() ==> r@[v] == r0[v],
                forall|v: int| 0 <= v < j ==> r@[r0.len() + v] as int == #[trigger] succ_of(cs, k as int, v),
            decreases t@.len() - j,
        {
            let mut q: usize = j;
            let mut found: bool = false;
            while q > 0 && !found
                invariant
                    tk == t@,
                    t@.len() <= 255,
                    q <= j < t@.len(),
                    !found ==> parent_pos(tk, j as int, j - 1) == parent_pos(tk, j as int, q - 1),
                    found ==> parent_pos(tk, j as int, j - 1) == q as int && q < j,
                decreases q,
            {
                if (q - 1) + (t[q - 1] as usize) > j {
                    found = true;
                }
                q = q - 1;
            }
            let s = if found {
                off + q
            } else {
                next_root
            };
            r.push(s);
            j = j + 1;
        }
        proof {
            assert forall|v: int| 0 <= v < r@.len() implies r@[v] as int == #[trigger] succ_prefix(cs, k + 1)[v] by {
                if v >= r0.len() {
                    assert(r@[r0.len() + (v - r0.len())] as int == succ_of(cs, k as int, v - r0.len()));
                }
            }
        }
        off = off + t.len();
        k = k + 1;
    }
    r
}

pub proof fn lemma_parent_pos_bound(t: Seq<u8>, j: int, q: int)
    ensures
        -1 <= parent_pos(t, j, q) <= q || q < -1,
    decreases q + 1,
{
    if q >= 0 {
        lemma_parent_pos_bound(t, j, q - 1);
    }
}

/// The first `m` trees hold `offset(c, m)` vertices.
pub proof fn lemma_offset_size(c: Seq<Seq<u8>>, m: int)
    requires
        0 <= m <= c.len(),
    ensures
        offset(c, m) == total_size(c.subrange(0, m)),
    decreases m,
{
    if m > 0 {
        lemma_offset_size(c, m - 1);
        assert(c.subrange(0, m).drop_last() =~= c.subrange(0, m - 1));
    }
}

/// Each successor is a vertex of the component.
pub proof fn lemma_successors_bound(c: Seq<Seq<u8>>)
    requires
        c.len() >= 1,
        forall|i: int| 0 <= i < c.len() ==> (#[trigger] c[i]).len() >= 1,
    ensures
        successors_spec(c).len() == total_size(c),
        forall|v: int| 0 <= v < successors_spec(c).len() ==> 0 <= #[trigger] successors_spec(c)[v] < total_size(c),
{
    lemma_offset_len(c, c.len() as int);
    lemma_offset_size(c, c.len() as int);
    assert(c.subrange(0, c.len() as int) =~= c);
    lemma_prefix_bound(c, c.len() as int);
}

proof fn lemma_prefix_bound(c: Seq<Seq<u8>>, m: int)
    requires
        1 <= c.len(),
        0 <= m <= c.len(),
        forall|i: int| 0 <= i < c.len() ==> (#[trigger] c[i]).len() >= 1,
    ensures
        forall|v: int| 0 <= v < succ_prefix(c, m).len() ==> 0 <= #[trigger] succ_prefix(c, m)[v] < total_size(c),
    decreases m,
{
    if m > 0 {
        lemma_prefix_bound(c, m - 1);
        let k = m - 1;
        lemma_offset_len(c, k);
        lemma_offset_len(c, m);
        lemma_offset_len(c, c.len() as int);
        lemma_offset_size(c, c.len() as int);
        assert(c.subrange(0, c.len() as int) =~= c);
        lemma_offset_size(c, m);
        lemma_size_nonneg(c.subrange(m, c.len() as int));
        lemma_size_concat(c.subrange(0, m), c.subrange(m, c.len() as int));
        assert(c.subrange(0, m) + c.subrange(m, c.len() as int) =~= c);
        if m < c.len() {
            lemma_size_front(c.subrange(m, c.len() as int));
            assert(c.subrange(m, c.len() as int)[0] == c[m]);
            assert(c[m].len() >= 1);
        }
        lemma_size_front(c);
        assert(c[0].len() >= 1);
        assert forall|j: int| 0 <= j < c[k].len() implies 0 <= #[trigger] succ_of(c, k, j) < total_size(c) by {
            lemma_parent_pos_bound(c[k], j, j - 1);
        }
        let pre = succ_prefix(c, k);
        assert forall|v: int| 0 <= v < succ_prefix(c, m).len() implies 0 <= #[trigger] succ_prefix(c, m)[v] < total_size(c) by {
            if v >= pre.len() {
                assert(succ_prefix(c, m)[v] == succ_of(c, k, v - pre.len()));
            } else {
                assert(succ_prefix(c, m)[v] == pre[v]);
            }
        }
    }
}

/// The codes of the components of a digraph.
pub open spec fn digraph_codes(g: Seq<Comp>) -> Seq<Seq<Seq<u8>>> {
    Seq::new(g.len(), |k: int| codes(g[k]@))
}

/// Number of vertices in the components `g[0..m]`.
pub open spec fn digraph_size(g: Seq<Seq<Seq<u8>>>, m: int) -> int
    decreases m,
{
    if m <= 0 {
        0
    } else {
        digraph_size(g, m - 1) + total_size(g[m - 1])
    }
}

/// The successors of the vertices of the components `g[0..m]`, numbered component after
/// component.
pub open spec fn digraph_succ(g: Seq<Seq<Seq<u8>>>, m: int) -> Seq<int>
    decreases m,
{
    if m <= 0 {
        Seq::empty()
    } else {
        let prev = digraph_succ(g, m - 1);
        let own = successors_spec(g[m - 1]);
        prev + Seq::new(own.len(), |v: int| own[v] + prev.len())
    }
}

/// The successor of each vertex of a digraph given by its components, numbered
/// component after component.
pub fn digraph_successors(g: &Vec<Comp>) -> (r: Vec<usize>)
    requires
        forall|k: int| 0 <= k < g@.len() ==> well_formed(#[trigger] codes(g@[k]@)) && g@[k]@.len() >= 1,
        digraph_size(digraph_codes(g@), g@.len() as int) <= 255,
    ensures
        r@.len() == digraph_succ(digraph_codes(g@), g@.len() as int).len(),
        forall|v: int| 0 <= v < r@.len() ==> r@[v] as int == #[trigger] digraph_succ(digraph_codes(g@), g@.len() as int)[v],
{
    let ghost gs = digraph_codes(g@);
    let mut r: Vec<usize> = Vec::new();
    let mut k: usize = 0;
    while k < g.len()
        invariant
            gs == digraph_codes(g@),
            forall|q: int| 0 <= q < g@.len() ==> well_formed(#[trigger] codes(g@[q]@)) && g@[q]@.len() >= 1,
            digraph_size(gs, g@.len() as int) <= 255,
            k <= g@.len(),
            r@.len() == digraph_succ(gs, k as int).len(),
            r@.len() == digraph_size(gs, k as int),
            forall|v: int| 0 <= v < r@.len() ==> r@[v] as int == #[trigger] digraph_succ(gs, k as int)[v],
        decreases g@.len() - k,
    {
        let ghost cs = codes(g@[k as int]@);
        proof {
            assert(gs[k as int] == cs);
            assert forall|i: int| 0 <= i < cs.len() implies (#[trigger] cs[i]).len() >= 1 by {
                assert(crate::tree::tree_shape(cs[i]));
            }
            lemma_successors_bound(cs);
            lemma_digraph_size_mono(gs, k + 1, g@.len() as int);
        }
        let s = successors(&g[k]);
        let base = r.len();
        let ghost r0 = r@;
        let mut j: usize = 0;
        while j < s.len()
            invariant
                s@.len() == successors_spec(cs).len(),
                forall|v: int| 0 <= v < s@.len() ==> s@[v] as int == #[trigger] successors_spec(cs)[v],
                forall|v: int| 0 <= v < s@.len() ==> 0 <= #[trigger] successors_spec(cs)[v] < total_size(cs),
                total_size(cs) <= 255,
                base == r0.len(),
                base <= 255,
                j <= s@.len(),
                r@.len() == r0.len() + j,
                forall|v: int| 0 <= v < r0.len() ==> r@[v] == r0[v],
                forall|v: int| 0 <= v < j ==> r@[r0.len() + v] as int == #[trigger] successors_spec(cs)[v] + base,
            decreases s@.len() - j,
        {
            proof {
                assert(s@[j as int] as int == successors_spec(cs)[j as int]);
                assert(successors_spec(cs)[j as int] < total_size(cs));
            }
            r.push(s[j] + base);
            j = j + 1;
        }
        proof {
            let own = successors_spec(cs);
            assert forall|v: int| 0 <= v < r@.len() implies r@[v] as int == #[trigger] digraph_succ(gs, k + 1)[v] by {
                if v >= r0.len() {
                    assert(r@[r0.len() + (v - r0.len())] as int == own[v - r0.len()] + base);
                }
            }
        }
        k = k + 1;
    }
    r
}

/// Sizes only grow as components are added.
pub proof fn lemma_digraph_size_mono(g: Seq<Seq<Seq<u8>>>, a: int, b: int)
    requires
        0 <= a <= b <= g.len(),
    ensures
        digraph_size(g, a) <= digraph_size(g, b),
        total_size(g[a - 1]) <= digraph_size(g, b) - digraph_size(g, a - 1) || a < 1,
    decreases b - a,
{
    if a < b {
        lemma_digraph_size_mono(g, a + 1, b);
        lemma_size_nonneg(g[a]);
    }
    if a >= 1 {
        lemma_size_nonneg(g[a - 1]);
    }
}

/// Entry `k` of the adjacency matrix of `succ`, read row by row.
fn adj_entry(succ: &Vec<usize>, loopless: bool, k: usize) -> (r: bool)
    requires
        succ@.len() <= 255,
    ensures
        r == adj_bit(succ@, loopless, k as int),
{
    let n = succ.len();
    proof {
        assert(n * n <= 255 * 255) by (nonlinear_arith)
            requires
                n <= 255,
        ;
    }
    if n == 0 || k >= n * n {
        proof {
            let nn = succ@.len() as int;
            let kk = k as int;
            assert(!(0 <= kk < nn * nn)) by (nonlinear_arith)
                requires
                    nn == 0 || kk >= nn * nn,
            ;
        }
        return false;
    }
    let row = k / n;
    let col = k % n;
    proof {
        let (kk, nn) = (k as int, n as int);
        assert(kk / nn < nn) by (nonlinear_arith)
            requires
                0 <= kk < nn * nn,
                nn > 0,
        ;
    }
    succ[row] == col && !(loopless && row == col)
}

/// Weight `w` when entry `k` is set, else zero.
fn entry_val(succ: &Vec<usize>, loopless: bool, k: usize, w: u8) -> (r: u8)
    requires
        succ@.len() <= 255,
    ensures
        r as int == bit_val(succ@, loopless, k as int, w as int),
{
    if adj_entry(succ, loopless, k) {
        w
    } else {
        0
    }
}

/// The digraph6 line of the functional digraph that maps vertex `v` to `succ[v]`:
/// `&`, the vertex count, then the adjacency matrix row by row, six entries a byte,
/// each byte offset by 63. With `loopless`, the diagonal is left out.
pub fn digraph6(succ: &Vec<usize>, loopless: bool) -> (r: Vec<u8>)
    requires
        succ@.len() <= 255,
    ensures
        r@ == digraph6_spec(succ@, loopless),
{
    let n = succ.len();
    let mut r: Vec<u8> = Vec::new();
    r.push(38u8);
    if n < 63 {
        r.push((n + 63) as u8);
    } else {
        r.push(126u8);
        r.push((n / 4096 % 64 + 63) as u8);
        r.push((n / 64 % 64 + 63) as u8);
        r.push((n % 64 + 63) as u8);
    }
    let ghost head = r@;
    proof {
        assert(head =~= seq![38u8] + size_code(n as int));
    }
    proof {
        assert(n * n <= 255 * 255) by (nonlinear_arith)
            requires
                n <= 255,
        ;
    }
    let groups: usize = (n * n + 5) / 6;
    let mut g: usize = 0;
    while g < groups
        invariant
            n == succ@.len(),
            n <= 255,
            groups == (n * n + 5) / 6,
            n * n <= 255 * 255,
            g <= groups,
            r@ == head + Seq::new(g as nat, |x: int| (group_val(succ@, loopless, x) + 63) as u8),
        decreases groups - g,
    {
        let k = 6 * g;
        let v = entry_val(succ, loopless, k, 32) + entry_val(succ, loopless, k + 1, 16)
            + entry_val(succ, loopless, k + 2, 8) + entry_val(succ, loopless, k + 3, 4)
            + entry_val(succ, loopless, k + 4, 2) + entry_val(succ, loopless, k + 5, 1);
        r.push(v + 63);
        g = g + 1;
        proof {
            assert(r@ =~= head + Seq::new(g as nat, |x: int| (group_val(succ@, loopless, x) + 63) as u8));
        }
    }
    r
}

} // verus!
