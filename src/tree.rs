use vstd::prelude::*;

use crate::lex::{cmp_ranges, lex_le};

verus! {

/// A rooted tree, coded in preorder: each vertex contributes the size of its subtree,
/// so element 0 is the size of the whole tree and the children's codes follow it.
pub type Tree = Vec<u8>;

/// Starting at position `i`, stepping over top-level codes by their size fields lands
/// exactly on the end of `t`.
pub open spec fn chain(t: Seq<u8>, i: int) -> bool
    decreases t.len() - i,
{
    if 0 <= i < t.len() && t[i] >= 1 && i + t[i] <= t.len() {
        chain(t, i + t[i])
    } else {
        i == t.len()
    }
}

/// The shape of a tree code at its top level: the size field is the length, and the
/// children's codes tile the rest.
pub open spec fn tree_shape(t: Seq<u8>) -> bool {
    &&& t.len() >= 1
    &&& t[0] == t.len()
    &&& chain(t, 1)
}

/// From the child code starting at `l` on, each child code is `<=` the next one.
pub open spec fn sorted_from(t: Seq<u8>, l: int) -> bool
    decreases t.len() as int - l,
{
    if l < 1 || l >= t.len() || t[l] == 0 {
        true
    } else {
        let m = l + t[l];
        if m >= t.len() {
            true
        } else {
            lex_le(t.subrange(l, m), t.subrange(m, m + t[m])) && sorted_from(t, m)
        }
    }
}

/// The vertex at position `j` is sound: its subtree `t[j..j + t[j]]` lies inside `t`,
/// its children's codes tile the rest of that subtree, and they are in nondecreasing
/// order.
pub open spec fn node_valid(t: Seq<u8>, j: int) -> bool {
    &&& 1 <= t[j]
    &&& j + t[j] <= t.len()
    &&& chain(t.subrange(0, j + t[j]), j + 1)
    &&& sorted_from(t.subrange(0, j + t[j]), j + 1)
}

/// A valid tree code: the size field is the length and every vertex, at every nesting
/// level, is sound, so that siblings are in nondecreasing order throughout.
pub open spec fn valid_code(t: Seq<u8>) -> bool {
    &&& t.len() >= 1
    &&& t[0] == t.len()
    &&& forall|j: int| 0 <= j < t.len() ==> #[trigger] node_valid(t, j)
}

/// Start of the last top-level code, walking from `i`.
pub open spec fn last_start(t: Seq<u8>, i: int) -> int
    decreases t.len() as int - i,
{
    if 0 <= i < t.len() && t[i] >= 1 && i + t[i] < t.len() {
        last_start(t, i + t[i])
    } else {
        i
    }
}

/// The tree whose root gets the children of `t1`'s root followed by `t2` as a last child.
pub open spec fn merge_spec(t1: Seq<u8>, t2: Seq<u8>) -> Seq<u8> {
    seq![(t1[0] + t2[0]) as u8] + t1.drop_first() + t2
}

/// The split of `t` into its root with all children but the last, and the last child.
pub open spec fn unmerge_spec(t: Seq<u8>) -> (Seq<u8>, Seq<u8>) {
    let l = last_start(t, 1);
    (seq![l as u8] + t.subrange(1, l), t.subrange(l, t.len() as int))
}

pub proof fn lemma_chain_bound(t: Seq<u8>, i: int)
    requires
        chain(t, i),
    ensures
        0 <= i <= t.len(),
    decreases t.len() as int - i,
{
    if 0 <= i < t.len() {
        lemma_chain_bound(t, i + t[i]);
    }
}

/// A chain of `a` from `i` stays a chain in `b` when `b` agrees with `a` from `i` on
/// and continues with a chain at `a`'s end.
pub proof fn lemma_chain_extend(a: Seq<u8>, b: Seq<u8>, i: int)
    requires
        chain(a, i),
        a.len() <= b.len(),
        forall|k: int| i <= k < a.len() ==> b[k] == a[k],
        chain(b, a.len() as int),
    ensures
        chain(b, i),
        i < a.len() ==> last_start(b, i) == (if b.len() > a.len() {
            last_start(b, a.len() as int)
        } else {
            last_start(a, i)
        }),
    decreases a.len() - i,
{
    lemma_chain_bound(a, i);
    if i < a.len() {
        lemma_chain_bound(a, i + a[i]);
        lemma_chain_extend(a, b, i + a[i]);
    }
}

/// The last code of a chain from `i` starts at or after `i` and ends at the end.
pub proof fn lemma_last_start(t: Seq<u8>, i: int)
    requires
        chain(t, i),
        i < t.len(),
    ensures
        i <= last_start(t, i) < t.len(),
        last_start(t, i) + t[last_start(t, i)] == t.len(),
    decreases t.len() - i,
{
    lemma_chain_bound(t, i + t[i]);
    if i + t[i] < t.len() {
        lemma_last_start(t, i + t[i]);
    }
}

/// The prefix of a chain that stops before its last code is a chain of its own.
pub proof fn lemma_chain_prefix(t: Seq<u8>, s: Seq<u8>, i: int)
    requires
        chain(t, i),
        i < t.len(),
        s.len() == last_start(t, i),
        forall|k: int| i <= k < s.len() ==> s[k] == t[k],
    ensures
        chain(s, i),
        i <= last_start(t, i) < t.len(),
        last_start(t, i) + t[last_start(t, i)] == t.len(),
    decreases t.len() as int - i,
{
    lemma_chain_bound(t, i + t[i]);
    if i + t[i] < t.len() {
        lemma_chain_prefix(t, s, i + t[i]);
    }
}

/// Whether, inside `u`, the codes from `start` on tile the rest of `u` and are in
/// nondecreasing order.
fn sorted_chain(u: &[u8], start: usize) -> (r: bool)
    requires
        1 <= start <= u@.len(),
    ensures
        r == (chain(u@, start as int) && sorted_from(u@, start as int)),
{
    let n = u.len();
    let mut l: usize = start;
    while l < n
        invariant
            n == u@.len(),
            1 <= start <= l <= n,
            (chain(u@, start as int) && sorted_from(u@, start as int)) == (chain(u@, l as int)
                && sorted_from(u@, l as int)),
        decreases n - l,
    {
        let step = u[l] as usize;
        if step == 0 || step > n - l {
            return false;
        }
        let m = l + step;
        if m < n {
            let step2 = u[m] as usize;
            if step2 == 0 || step2 > n - m {
                proof {
                    assert(!chain(u@, m as int));
                    assert(chain(u@, l as int) == chain(u@, m as int));
                }
                return false;
            }
            if cmp_ranges(u, l, m, u, m, m + step2) > 0 {
                return false;
            }
        }
        l = m;
    }
    true
}

/// Whether `t` is a valid tree code: checked at every vertex, so that the sibling
/// order holds at every nesting level.
pub fn is_valid(t: &Tree) -> (r: bool)
    requires
        tree_shape(t@),
    ensures
        r == valid_code(t@),
{
    let n = t.len();
    let mut j: usize = 0;
    while j < n
        invariant
            n == t@.len(),
            tree_shape(t@),
            j <= n,
            forall|q: int| 0 <= q < j ==> #[trigger] node_valid(t@, q),
        decreases n - j,
    {
        let s = t[j] as usize;
        if s == 0 || s > n - j {
            proof {
                assert(!node_valid(t@, j as int));
            }
            return false;
        }
        let u = copy_range(t.as_slice(), 0, j + s);
        if !sorted_chain(u.as_slice(), j + 1) {
            proof {
                assert(!node_valid(t@, j as int));
            }
            return false;
        }
        j = j + 1;
    }
    true
}

/// Attaches `t2` as a new last child of the root of `t1`.
pub fn merge(t1: &Tree, t2: &Tree) -> (t: Tree)
    requires
        t1@.len() >= 1,
        t2@.len() >= 1,
        t1@[0] + t2@[0] <= 255,
    ensures
        t@ == merge_spec(t1@, t2@),
{
    let mut t: Vec<u8> = Vec::new();
    t.push(t1[0] + t2[0]);
    let mut k: usize = 1;
    while k < t1.len()
        invariant
            1 <= k <= t1@.len(),
            t@ == seq![(t1@[0] + t2@[0]) as u8] + t1@.subrange(1, k as int),
        decreases t1@.len() - k,
    {
        t.push(t1[k]);
        k = k + 1;
        proof {
            assert(t1@.subrange(1, k as int) =~= t1@.subrange(1, k - 1).push(t1@[k - 1]));
        }
    }
    let mut j: usize = 0;
    while j < t2.len()
        invariant
            j <= t2@.len(),
            t@ == seq![(t1@[0] + t2@[0]) as u8] + t1@.drop_first() + t2@.subrange(0, j as int),
        decreases t2@.len() - j,
    {
        proof {
            assert(t1@.subrange(1, t1@.len() as int) =~= t1@.drop_first());
        }
        t.push(t2[j]);
        j = j + 1;
        proof {
            assert(t2@.subrange(0, j as int) =~= t2@.subrange(0, j - 1).push(t2@[j - 1]));
        }
    }
    proof {
        assert(t1@.subrange(1, t1@.len() as int) =~= t1@.drop_first());
        assert(t2@.subrange(0, t2@.len() as int) =~= t2@);
    }
    t
}

/// A copy of `src[from..to]`.
pub fn copy_range(src: &[u8], from: usize, to: usize) -> (r: Vec<u8>)
    requires
        from <= to <= src@.len(),
    ensures
        r@ == src@.subrange(from as int, to as int),
{
    let mut r: Vec<u8> = Vec::new();
    let mut k: usize = from;
    while k < to
        invariant
            from <= k <= to <= src@.len(),
            r@ == src@.subrange(from as int, k as int),
        decreases to - k,
    {
        r.push(src[k]);
        k = k + 1;
        proof {
            assert(src@.subrange(from as int, k as int) =~= src@.subrange(from as int, k - 1).push(
                src@[k - 1],
            ));
        }
    }
    r
}

/// Splits off the last child of the root: the root with its other children, and the
/// last child's subtree.
pub fn unmerge(t: &Tree) -> (r: (Tree, Tree))
    requires
        tree_shape(t@),
        t@.len() >= 2,
    ensures
        (r.0@, r.1@) == unmerge_spec(t@),
{
    let n = t.len();
    let mut l: usize = 1;
    while l + (t[l] as usize) < n
        invariant
            n == t@.len(),
            1 <= l < n,
            chain(t@, l as int),
            last_start(t@, 1) == last_start(t@, l as int),
        decreases n - l,
    {
        l = l + t[l] as usize;
    }
    let ghost s = seq![l as u8] + t@.subrange(1, l as int);
    proof {
        lemma_chain_prefix(t@, s, l as int);
    }
    let t2 = copy_range(t.as_slice(), l, n);
    let mut t1: Vec<u8> = Vec::new();
    t1.push(t[0] - t2[0]);
    let rest = copy_range(t.as_slice(), 1, l);
    let mut k: usize = 0;
    while k < rest.len()
        invariant
            k <= rest@.len(),
            rest@ == t@.subrange(1, l as int),
            t1@ == seq![l as u8] + rest@.subrange(0, k as int),
        decreases rest@.len() - k,
    {
        t1.push(rest[k]);
        k = k + 1;
        proof {
            assert(rest@.subrange(0, k as int) =~= rest@.subrange(0, k - 1).push(rest@[k - 1]));
        }
    }
    proof {
        assert(rest@.subrange(0, rest@.len() as int) =~= rest@);
    }
    (t1, t2)
}

/// Splitting off the last child and attaching it again gives back the tree; the two
/// parts are tree codes of their own at the top level.
pub proof fn lemma_merge_unmerge(t: Seq<u8>)
    requires
        tree_shape(t),
        t.len() >= 2,
    ensures
        tree_shape(unmerge_spec(t).0),
        unmerge_spec(t).1.len() >= 1,
        unmerge_spec(t).1[0] == unmerge_spec(t).1.len(),
        unmerge_spec(t).0.len() + unmerge_spec(t).1.len() == t.len(),
        merge_spec(unmerge_spec(t).0, unmerge_spec(t).1) == t,
{
    let l = last_start(t, 1);
    lemma_last_start(t, 1);
    let s = seq![l as u8] + t.subrange(1, l);
    lemma_chain_prefix(t, s, 1);
    let (a, b) = unmerge_spec(t);
    assert(a == s);
    assert(merge_spec(a, b) =~= t);
}

/// Attaching `t2` to `t1` and splitting it off again gives back `t1` and `t2`.
pub proof fn lemma_unmerge_merge(t1: Seq<u8>, t2: Seq<u8>)
    requires
        tree_shape(t1),
        tree_shape(t2),
        t1[0] + t2[0] <= 255,
    ensures
        tree_shape(merge_spec(t1, t2)),
        unmerge_spec(merge_spec(t1, t2)) == (t1, t2),
{
    let r = merge_spec(t1, t2);
    let n1 = t1.len() as int;
    assert(r[n1] == t2[0]);
    assert(chain(r, r.len() as int));
    assert(chain(r, n1));
    lemma_chain_extend(t1, r, 1);
    assert(last_start(r, n1) == n1);
    assert(last_start(r, 1) == n1);
    let (a, b) = unmerge_spec(r);
    assert(a =~= t1);
    assert(b =~= t2);
}

} // verus!
