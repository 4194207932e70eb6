use vstd::prelude::*;

use crate::lex::{lemma_lex_cmp_zero, lex_le};
use crate::rotation::{cmp_trees, codes, is_min_rotation_by, min_rotation, RotationTest};
use crate::tree;
use crate::tree::{copy_range, valid_code, merge_spec, tree_shape, unmerge_spec, Tree};

pub use crate::walk::generate;

verus! {

/// A connected functional digraph: the trees hanging from the vertices of its cycle,
/// in the direction of the cycle.
pub type Comp = Vec<Tree>;

/// Number of vertices: the sum of the trees' code lengths.
pub open spec fn total_size(c: Seq<Seq<u8>>) -> int
    decreases c.len(),
{
    if c.len() == 0 {
        0
    } else {
        total_size(c.drop_last()) + c.last().len()
    }
}

/// Every tree has the top-level shape of a tree code (size field, children tiling the
/// rest) and the vertices fit in a byte.
pub open spec fn well_formed(c: Seq<Seq<u8>>) -> bool {
    &&& forall|i: int| 0 <= i < c.len() ==> tree_shape(#[trigger] c[i])
    &&& total_size(c) <= 255
}

/// The canonical code of its class: each tree a valid code (siblings sorted at every
/// level), and the least of its rotations.
pub open spec fn canonical(c: Seq<Seq<u8>>) -> bool {
    &&& forall|i: int| 0 <= i < c.len() ==> valid_code(#[trigger] c[i])
    &&& min_rotation(c)
}

/// `c` with the two trees at `i` and `i + 1` replaced by `t`.
pub open spec fn splice(c: Seq<Seq<u8>>, i: int, t: Seq<u8>) -> Seq<Seq<u8>> {
    c.subrange(0, i) + seq![t] + c.subrange(i + 2, c.len() as int)
}

/// Number of candidate moves out of a component of `k` trees.
pub open spec fn n_candidates_spec(k: int) -> int {
    2 * (k - 1)
}

/// Candidate `i`: for `i < k - 1` the tree `i + 1` is merged into tree `i`; for the next
/// `k - 1` values tree `j` is merged into tree `j + 1` (`j = i - (k - 1)`), unless the two
/// are equal. The result is kept only when it is canonical.
pub open spec fn candidate_spec(c: Seq<Seq<u8>>, i: int) -> Option<Seq<Seq<u8>>> {
    let k = c.len() as int;
    if 0 <= i < k - 1 {
        let d = splice(c, i, merge_spec(c[i], c[i + 1]));
        if canonical(d) { Some(d) } else { None }
    } else if k - 1 <= i < 2 * (k - 1) {
        let j = i - (k - 1);
        if c[j] != c[j + 1] {
            let d = splice(c, j, merge_spec(c[j + 1], c[j]));
            if canonical(d) { Some(d) } else { None }
        } else {
            None
        }
    } else {
        None
    }
}

/// Index of the first tree at or after `p` with more than one vertex, or `c.len()`.
pub open spec fn first_big(c: Seq<Seq<u8>>, p: int) -> int
    decreases c.len() - p,
{
    if p < 0 || p >= c.len() {
        c.len() as int
    } else if c[p].len() > 1 {
        p
    } else {
        first_big(c, p + 1)
    }
}

/// The parent in the generation tree: the first tree with more than one vertex is split
/// by `unmerge` and its two parts put back in sorted order; none for a bare cycle.
pub open spec fn parent_spec(c: Seq<Seq<u8>>) -> Option<Seq<Seq<u8>>> {
    let p = first_big(c, 0);
    if p >= c.len() {
        None
    } else {
        let (a, b) = unmerge_spec(c[p]);
        let pair = if lex_le(a, b) { seq![a, b] } else { seq![b, a] };
        Some(c.subrange(0, p) + pair + c.subrange(p + 1, c.len() as int))
    }
}

/// The index of the candidate of the parent that leads back to `c`.
pub open spec fn backtrack_spec(c: Seq<Seq<u8>>) -> Option<int> {
    let p = first_big(c, 0);
    if p >= c.len() {
        None
    } else {
        let (a, b) = unmerge_spec(c[p]);
        if lex_le(a, b) { Some(p) } else { Some(p + c.len()) }
    }
}

/// The view of an optional component.
pub open spec fn opt_codes(o: Option<Comp>) -> Option<Seq<Seq<u8>>> {
    match o {
        Some(c) => Some(codes(c@)),
        None => None,
    }
}

/// A copy of a tree code.
pub fn copy_tree(t: &Tree) -> (r: Tree)
    ensures
        r@ == t@,
{
    let r = copy_range(t.as_slice(), 0, t.len());
    proof {
        assert(t@.subrange(0, t@.len() as int) =~= t@);
    }
    r
}

/// Appends copies of the trees `c[from..to]` to `d`.
pub fn push_trees(d: &mut Comp, c: &Comp, from: usize, to: usize)
    requires
        from <= to <= c@.len(),
    ensures
        codes(final(d)@) == codes(old(d)@) + codes(c@).subrange(from as int, to as int),
{
    let ghost d0 = codes(d@);
    let mut k: usize = from;
    while k < to
        invariant
            from <= k <= to <= c@.len(),
            codes(d@) == d0 + codes(c@).subrange(from as int, k as int),
        decreases to - k,
    {
        let t = copy_tree(&c[k]);
        let ghost before = d@;
        d.push(t);
        k = k + 1;
        proof {
            assert(codes(d@) =~= codes(before) + seq![t@]);
            assert(codes(c@).subrange(from as int, k as int) =~= codes(c@).subrange(
                from as int,
                k - 1,
            ) + seq![t@]);
            assert(codes(d@) =~= d0 + codes(c@).subrange(from as int, k as int));
        }
    }
}

/// The trees of a well-formed component have the shape of tree codes.
pub proof fn lemma_shapes(c: Seq<Tree>)
    requires
        well_formed(codes(c)),
    ensures
        forall|q: int| 0 <= q < c.len() ==> tree_shape(#[trigger] c[q]@),
{
    assert forall|q: int| 0 <= q < c.len() implies tree_shape(#[trigger] c[q]@) by {
        assert(codes(c)[q] == c[q]@);
    }
}

/// A copy of a component.
pub fn copy_comp(c: &Comp) -> (r: Comp)
    ensures
        codes(r@) == codes(c@),
{
    let mut r: Comp = Vec::new();
    push_trees(&mut r, c, 0, c.len());
    proof {
        assert(codes(c@).subrange(0, c@.len() as int) =~= codes(c@));
        assert(codes(r@) =~= codes(c@));
    }
    r
}

/// The bare cycle on `n` vertices: `n` trees of one vertex each.
pub fn cycle(n: usize) -> (c: Comp)
    ensures
        codes(c@) == Seq::new(n as nat, |i: int| seq![1u8]),
{
    let mut c: Comp = Vec::new();
    let mut k: usize = 0;
    while k < n
        invariant
            k <= n,
            c@.len() == k,
            codes(c@) == Seq::new(k as nat, |i: int| seq![1u8]),
        decreases n - k,
    {
        let mut t: Tree = Vec::new();
        t.push(1u8);
        proof {
            assert(t@ =~= seq![1u8]);
        }
        let ghost prev = c@;
        c.push(t);
        k = k + 1;
        proof {
            assert forall|i: int| 0 <= i < k implies codes(c@)[i] == seq![1u8] by {
                assert(c@ == prev.push(c@[k - 1]));
                if i < k - 1 {
                    assert(c@[i] == prev[i]);
                    assert(codes(prev)[i] == seq![1u8]);
                }
            }
            assert(codes(c@) =~= Seq::new(k as nat, |i: int| seq![1u8]));
        }
    }
    c
}

/// Whether `c` is canonical: each tree a valid code and `c` the least rotation.
pub fn is_valid(c: &Comp) -> (r: bool)
    requires
        forall|i: int| 0 <= i < c@.len() ==> tree_shape(#[trigger] c@[i]@),
    ensures
        r == canonical(codes(c@)),
{
    is_valid_by(c, RotationTest::Naive)
}

/// Whether `c` is canonical, with the least-rotation test chosen by `test`.
pub fn is_valid_by(c: &Comp, test: RotationTest) -> (r: bool)
    requires
        forall|i: int| 0 <= i < c@.len() ==> tree_shape(#[trigger] c@[i]@),
    ensures
        r == canonical(codes(c@)),
{
    let mut k: usize = 0;
    while k < c.len()
        invariant
            k <= c@.len(),
            forall|i: int| 0 <= i < c@.len() ==> tree_shape(#[trigger] c@[i]@),
            forall|i: int| 0 <= i < k ==> valid_code(#[trigger] codes(c@)[i]),
        decreases c@.len() - k,
    {
        if !tree::is_valid(&c[k]) {
            proof {
                assert(!valid_code(codes(c@)[k as int]));
            }
            return false;
        }
        k = k + 1;
    }
    is_min_rotation_by(test, c.as_slice())
}

/// Number of candidate moves out of `c`.
pub fn n_candidates(c: &Comp) -> (r: usize)
    requires
        1 <= c@.len(),
        c@.len() - 1 <= usize::MAX / 2,
    ensures
        r == n_candidates_spec(c@.len() as int),
{
    let k = c.len();
    2 * (k - 1)
}

/// Whether two components have the same codes.
pub fn same_comp(a: &Comp, b: &Comp) -> (r: bool)
    ensures
        r == (codes(a@) == codes(b@)),
{
    if a.len() != b.len() {
        proof {
            assert(codes(a@).len() != codes(b@).len());
        }
        return false;
    }
    let mut k: usize = 0;
    while k < a.len()
        invariant
            k <= a@.len() == b@.len(),
            forall|i: int| 0 <= i < k ==> a@[i]@ == b@[i]@,
        decreases a@.len() - k,
    {
        let c = cmp_trees(&a[k], &b[k]);
        proof {
            lemma_lex_cmp_zero(a@[k as int]@, b@[k as int]@);
        }
        if c != 0 {
            proof {
                assert(codes(a@)[k as int] != codes(b@)[k as int]);
            }
            return false;
        }
        k = k + 1;
    }
    proof {
        assert(codes(a@) =~= codes(b@));
    }
    true
}

pub proof fn lemma_size_concat(a: Seq<Seq<u8>>, b: Seq<Seq<u8>>)
    ensures
        total_size(a + b) == total_size(a) + total_size(b),
    decreases b.len(),
{
    if b.len() == 0 {
        assert(a + b =~= a);
    } else {
        assert((a + b).drop_last() =~= a + b.drop_last());
        lemma_size_concat(a, b.drop_last());
    }
}

pub proof fn lemma_size_nonneg(a: Seq<Seq<u8>>)
    ensures
        total_size(a) >= 0,
    decreases a.len(),
{
    if a.len() > 0 {
        lemma_size_nonneg(a.drop_last());
    }
}

/// Replacing the trees at `i` and `i + 1` by `t` trades their sizes for `t`'s.
pub proof fn lemma_splice_size(c: Seq<Seq<u8>>, i: int, t: Seq<u8>)
    requires
        0 <= i < c.len() - 1,
    ensures
        total_size(splice(c, i, t)) == total_size(c) - c[i].len() - c[i + 1].len() + t.len(),
        c[i].len() + c[i + 1].len() <= total_size(c) - total_size(c.subrange(0, i)) - total_size(
            c.subrange(i + 2, c.len() as int),
        ),
        total_size(c.subrange(0, i)) >= 0,
        total_size(c.subrange(i + 2, c.len() as int)) >= 0,
{
    let pre = c.subrange(0, i);
    let post = c.subrange(i + 2, c.len() as int);
    let two = seq![c[i], c[i + 1]];
    assert(c =~= pre + two + post);
    lemma_size_concat(pre + two, post);
    lemma_size_concat(pre, two);
    lemma_size_concat(pre + seq![t], post);
    lemma_size_concat(pre, seq![t]);
    assert(two.drop_last() =~= seq![c[i]]);
    assert(seq![c[i]].drop_last() =~= Seq::<Seq<u8>>::empty());
    assert(seq![t].drop_last() =~= Seq::<Seq<u8>>::empty());
    assert(total_size(Seq::<Seq<u8>>::empty()) == 0);
    assert(seq![c[i]].last() == c[i]);
    assert(seq![t].last() == t);
    assert(total_size(seq![c[i]]) == c[i].len());
    assert(total_size(two) == c[i].len() + c[i + 1].len());
    assert(total_size(seq![t]) == t.len());
    assert(splice(c, i, t) == pre + seq![t] + post);
    lemma_size_nonneg(pre);
    lemma_size_nonneg(post);
}

/// Merging two neighbouring trees of a well-formed component keeps it well formed, with
/// the same number of vertices.
pub proof fn lemma_splice_merge(c: Seq<Seq<u8>>, i: int, a: int, b: int)
    requires
        well_formed(c),
        0 <= i < c.len() - 1,
        (a == i && b == i + 1) || (a == i + 1 && b == i),
    ensures
        c[a][0] + c[b][0] <= 255,
        well_formed(splice(c, i, merge_spec(c[a], c[b]))),
        total_size(splice(c, i, merge_spec(c[a], c[b]))) == total_size(c),
        splice(c, i, merge_spec(c[a], c[b])).len() == c.len() - 1,
{
    assert(tree_shape(c[a]));
    assert(tree_shape(c[b]));
    lemma_splice_size(c, i, merge_spec(c[a], c[b]));
    crate::tree::lemma_unmerge_merge(c[a], c[b]);
    let d = splice(c, i, merge_spec(c[a], c[b]));
    assert forall|k: int| 0 <= k < d.len() implies tree_shape(#[trigger] d[k]) by {
        if k < i {
            assert(d[k] == c[k]);
        } else if k > i {
            assert(d[k] == c[k + 1]);
        }
    }
}

/// Candidate move `i` out of `c`, when it leads to a canonical component.
pub fn candidate(c: &Comp, i: usize) -> (r: Option<Comp>)
    requires
        well_formed(codes(c@)),
        1 <= c@.len(),
    ensures
        opt_codes(r) == candidate_spec(codes(c@), i as int),
{
    candidate_by(c, i, RotationTest::Naive)
}

/// Candidate move `i` out of `c`, with the least-rotation test chosen by `test`.
pub fn candidate_by(c: &Comp, i: usize, test: RotationTest) -> (r: Option<Comp>)
    requires
        well_formed(codes(c@)),
        1 <= c@.len(),
    ensures
        opt_codes(r) == candidate_spec(codes(c@), i as int),
{
    let k = c.len();
    let ghost cs = codes(c@);
    if i < k - 1 {
        proof {
            lemma_splice_merge(cs, i as int, i as int, i + 1);
        }
        let mut d: Comp = Vec::new();
        push_trees(&mut d, c, 0, i);
        d.push(tree::merge(&c[i], &c[i + 1]));
        push_trees(&mut d, c, i + 2, k);
        proof {
            assert(codes(d@) =~= splice(cs, i as int, merge_spec(cs[i as int], cs[i + 1])));
            assert(forall|q: int| 0 <= q < d@.len() ==> codes(d@)[q] == #[trigger] d@[q]@);
        }
        if is_valid_by(&d, test) {
            return Some(d);
        }
    } else if k - 1 <= i && i - (k - 1) < k - 1 {
        let j = i - (k - 1);
        let e = cmp_trees(&c[j], &c[j + 1]);
        proof {
            lemma_lex_cmp_zero(cs[j as int], cs[j + 1]);
        }
        if e != 0 {
            proof {
                lemma_splice_merge(cs, j as int, j + 1, j as int);
            }
            let mut d: Comp = Vec::new();
            push_trees(&mut d, c, 0, j);
            d.push(tree::merge(&c[j + 1], &c[j]));
            push_trees(&mut d, c, j + 2, k);
            proof {
                assert(codes(d@) =~= splice(cs, j as int, merge_spec(cs[j + 1], cs[j as int])));
                assert(forall|q: int| 0 <= q < d@.len() ==> codes(d@)[q] == #[trigger] d@[q]@);
            }
            if is_valid_by(&d, test) {
                return Some(d);
            }
        }
    }
    None
}

/// The parent of `c` in the generation tree.
pub fn parent(c: &Comp) -> (r: Option<Comp>)
    requires
        forall|i: int| 0 <= i < c@.len() ==> tree_shape(#[trigger] c@[i]@),
    ensures
        opt_codes(r) == parent_spec(codes(c@)),
{
    let k = c.len();
    let ghost cs = codes(c@);
    let mut i: usize = 0;
    while i < k
        invariant
            k == c@.len(),
            cs == codes(c@),
            i <= k,
            forall|q: int| 0 <= q < c@.len() ==> tree_shape(#[trigger] c@[q]@),
            first_big(cs, 0) == first_big(cs, i as int),
        decreases k - i,
    {
        if c[i].len() > 1 {
            let (t1, t2) = tree::unmerge(&c[i]);
            let mut d: Comp = Vec::new();
            push_trees(&mut d, c, 0, i);
            let ghost pair = if lex_le(t1@, t2@) {
                seq![t1@, t2@]
            } else {
                seq![t2@, t1@]
            };
            if cmp_trees(&t1, &t2) <= 0 {
                d.push(t1);
                d.push(t2);
            } else {
                d.push(t2);
                d.push(t1);
            }
            push_trees(&mut d, c, i + 1, k);
            proof {
                assert(codes(d@) =~= cs.subrange(0, i as int) + pair + cs.subrange(
                    i + 1,
                    k as int,
                ));
            }
            return Some(d);
        }
        i = i + 1;
    }
    None
}

/// The index of the candidate of the parent of `c` that leads back to `c`.
pub fn backtrack(c: &Comp) -> (r: Option<usize>)
    requires
        forall|i: int| 0 <= i < c@.len() ==> tree_shape(#[trigger] c@[i]@),
        c@.len() <= usize::MAX / 2,
    ensures
        match r {
            Some(x) => backtrack_spec(codes(c@)) == Some(x as int),
            None => backtrack_spec(codes(c@)) is None,
        },
{
    let k = c.len();
    let ghost cs = codes(c@);
    let mut i: usize = 0;
    while i < k
        invariant
            k == c@.len(),
            cs == codes(c@),
            i <= k,
            k <= usize::MAX / 2,
            forall|q: int| 0 <= q < c@.len() ==> tree_shape(#[trigger] c@[q]@),
            first_big(cs, 0) == first_big(cs, i as int),
        decreases k - i,
    {
        if c[i].len() > 1 {
            let (t1, t2) = tree::unmerge(&c[i]);
            if cmp_trees(&t1, &t2) <= 0 {
                return Some(i);
            } else {
                return Some(i + k);
            }
        }
        i = i + 1;
    }
    None
}

/// Parity of the depth of `c` in the generation tree: each merge adds one tree vertex
/// and takes one cycle vertex away.
pub fn _depth(c: &Comp) -> (r: usize)
    requires
        forall|i: int| 0 <= i < c@.len() ==> tree_shape(#[trigger] c@[i]@),
        total_size(codes(c@)) <= usize::MAX,
    ensures
        r == (total_size(codes(c@)) - c@.len()) % 2,
{
    let ghost cs = codes(c@);
    let mut size: usize = 0;
    let mut k: usize = 0;
    while k < c.len()
        invariant
            cs == codes(c@),
            k <= c@.len(),
            forall|i: int| 0 <= i < c@.len() ==> tree_shape(#[trigger] c@[i]@),
            total_size(cs) <= usize::MAX,
            size == total_size(cs.subrange(0, k as int)),
            size >= k,
        decreases c@.len() - k,
    {
        proof {
            assert(cs.subrange(0, k + 1).drop_last() =~= cs.subrange(0, k as int));
            lemma_size_concat(cs.subrange(0, k + 1), cs.subrange(k + 1, cs.len() as int));
            assert(cs.subrange(0, k + 1) + cs.subrange(k + 1, cs.len() as int) =~= cs);
            lemma_size_nonneg(cs.subrange(k + 1, cs.len() as int));
            assert(tree_shape(c@[k as int]@));
        }
        size = size + c[k].len();
        k = k + 1;
    }
    proof {
        assert(cs.subrange(0, k as int) =~= cs);
    }
    (size - c.len()) % 2
}

} // verus!
