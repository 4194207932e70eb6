use vstd::prelude::*;

use crate::comp::{
    backtrack, backtrack_spec, candidate_by, candidate_spec, canonical, cycle, first_big, n_candidates,
    copy_comp, parent, parent_spec, same_comp, splice, total_size, well_formed, Comp,
};
use crate::lex::{lemma_lex_cmp_zero, lex_le};
use crate::rotation::{codes, codes_cmp, lemma_codes_cmp_skip, rotate, RotationTest};
use crate::tree::{lemma_merge_unmerge, lemma_unmerge_merge, merge_spec, unmerge_spec};

verus! {

pub proof fn lemma_first_big(c: Seq<Seq<u8>>, s: int)
    requires
        0 <= s <= c.len(),
    ensures
        s <= first_big(c, s) <= c.len(),
        first_big(c, s) < c.len() ==> c[first_big(c, s)].len() > 1,
    decreases c.len() - s,
{
    if s < c.len() && c[s].len() <= 1 {
        lemma_first_big(c, s + 1);
    }
}

/// When candidate `i` of `c` has `c` as its parent, `backtrack` on it gives `i` back.
pub proof fn lemma_backtrack_candidate(c: Seq<Seq<u8>>, i: int)
    requires
        well_formed(c),
        candidate_spec(c, i) is Some,
        parent_spec(candidate_spec(c, i).unwrap()) == Some(c),
    ensures
        backtrack_spec(candidate_spec(c, i).unwrap()) == Some(i),
{
    let k = c.len() as int;
    let d = candidate_spec(c, i).unwrap();
    let m = if i < k - 1 { i } else { i - (k - 1) };
    let (x, y) = if i < k - 1 { (m, m + 1) } else { (m + 1, m) };
    assert(d == splice(c, m, merge_spec(c[x], c[y])));
    crate::comp::lemma_splice_merge(c, m, x, y);
    lemma_unmerge_merge(c[x], c[y]);
    lemma_first_big(d, 0);
    let p = first_big(d, 0);
    let pc = parent_spec(d).unwrap();
    assert(p < d.len());
    lemma_merge_unmerge(d[p]);
    let (a, b) = unmerge_spec(d[p]);
    assert(pc.len() == d.len() + 1);
    if p < m {
        assert(d[p] == c[p]);
        assert(pc[p] == c[p]);
        assert(false);
    } else if p > m {
        assert(pc[m] == d[m]);
        assert(pc[m] == c[m]);
        assert(d[m] == merge_spec(c[x], c[y]));
        assert(false);
    }
    assert(p == m);
    assert((a, b) == (c[x], c[y]));
    assert(pc[m] == c[m]);
    assert(pc[m + 1] == c[m + 1]);
    lemma_lex_cmp_zero(c[x], c[y]);
}

/// Splitting a canonical component by `parent` and merging back along the candidate that
/// `backtrack` names gives the component back.
pub proof fn lemma_candidate_of_parent(c: Seq<Seq<u8>>)
    requires
        well_formed(c),
        canonical(c),
        first_big(c, 0) < c.len(),
    ensures
        parent_spec(c) is Some,
        backtrack_spec(c) is Some,
        candidate_spec(parent_spec(c).unwrap(), backtrack_spec(c).unwrap()) == Some(c),
{
    let p = first_big(c, 0);
    lemma_first_big(c, 0);
    assert(crate::tree::tree_shape(c[p]));
    lemma_merge_unmerge(c[p]);
    let (a, b) = unmerge_spec(c[p]);
    let par = parent_spec(c).unwrap();
    let k = par.len() as int;
    assert(k == c.len() + 1);
    if lex_le(a, b) {
        assert(par[p] == a && par[p + 1] == b);
        assert(splice(par, p, merge_spec(par[p], par[p + 1])) =~= c);
    } else {
        lemma_lex_cmp_zero(a, b);
        assert(par[p] == b && par[p + 1] == a);
        assert(par[p] != par[p + 1]);
        assert(backtrack_spec(c) == Some(p + c.len()));
        assert(p + c.len() - (k - 1) == p);
        assert(splice(par, p, merge_spec(par[p + 1], par[p])) =~= c);
    }
}

/// A sequence of digits in base `b`, most significant first.
pub open spec fn horner(v: Seq<int>, b: int) -> int
    decreases v.len(),
{
    if v.len() == 0 {
        0
    } else {
        horner(v.drop_last(), b) * b + v.last()
    }
}

pub open spec fn digits_ok(v: Seq<int>, b: int) -> bool {
    forall|j: int| 0 <= j < v.len() ==> 0 <= #[trigger] v[j] < b
}

/// Digits that agree up to `p` and grow at `p` give a larger number.
pub proof fn lemma_horner_lex(v: Seq<int>, w: Seq<int>, b: int, p: int)
    requires
        v.len() == w.len(),
        0 <= p < v.len(),
        b >= 1,
        digits_ok(v, b),
        digits_ok(w, b),
        forall|j: int| 0 <= j < p ==> v[j] == w[j],
        v[p] < w[p],
    ensures
        horner(v, b) < horner(w, b),
    decreases v.len(),
{
    let hv = horner(v.drop_last(), b);
    let hw = horner(w.drop_last(), b);
    lemma_horner_nonneg(v.drop_last(), b);
    if p == v.len() - 1 {
        assert(v.drop_last() =~= w.drop_last());
    } else {
        lemma_horner_lex(v.drop_last(), w.drop_last(), b, p);
        let lv = v.last();
        assert(hv * b + lv < hw * b) by (nonlinear_arith)
            requires
                hv < hw,
                0 <= lv < b,
        ;
        assert(0 <= w.last());
    }
}

pub proof fn lemma_horner_nonneg(v: Seq<int>, b: int)
    requires
        b >= 1,
        digits_ok(v, b),
    ensures
        horner(v, b) >= 0,
    decreases v.len(),
{
    if v.len() > 0 {
        lemma_horner_nonneg(v.drop_last(), b);
        let h = horner(v.drop_last(), b);
        assert(h * b >= 0) by (nonlinear_arith)
            requires
                h >= 0,
                b >= 1,
        ;
    }
}

/// Digits pointwise below `b` give at most the number whose digits are all `b - 1`.
pub proof fn lemma_horner_max(v: Seq<int>, b: int)
    requires
        b >= 1,
        digits_ok(v, b),
    ensures
        horner(v, b) <= horner(Seq::new(v.len(), |j: int| b - 1), b),
    decreases v.len(),
{
    let top = Seq::new(v.len(), |j: int| b - 1);
    if v.len() > 0 {
        lemma_horner_max(v.drop_last(), b);
        assert(top.drop_last() =~= Seq::new(v.drop_last().len(), |j: int| b - 1));
        let h = horner(v.drop_last(), b);
        let ht = horner(top.drop_last(), b);
        assert(h * b <= ht * b) by (nonlinear_arith)
            requires
                h <= ht,
                b >= 1,
        ;
    }
}

/// The codes of the bare cycle on `n` vertices.
pub open spec fn cycle_codes(n: nat) -> Seq<Seq<u8>> {
    Seq::new(n, |i: int| seq![1u8])
}

pub proof fn lemma_cycle_size(n: nat)
    ensures
        total_size(cycle_codes(n)) == n,
    decreases n,
{
    if n > 0 {
        assert(cycle_codes(n).drop_last() =~= cycle_codes((n - 1) as nat));
        lemma_cycle_size((n - 1) as nat);
    }
}

/// The bare cycle is a well-formed canonical component.
pub proof fn lemma_cycle_canonical(n: nat)
    requires
        n <= 255,
    ensures
        well_formed(cycle_codes(n)),
        canonical(cycle_codes(n)),
        total_size(cycle_codes(n)) == n,
{
    let s = cycle_codes(n);
    lemma_cycle_size(n);
    assert forall|i: int| 0 <= i < s.len() implies crate::tree::tree_shape(#[trigger] s[i]) by {
        assert(crate::tree::chain(s[i], 1));
        assert(s[i].subrange(0, 1) =~= s[i]);
        assert(crate::tree::node_valid(s[i], 0));
        assert(crate::tree::valid_code(s[i]));
    }
    assert forall|r: int| 1 <= r < s.len() implies codes_cmp(s, #[trigger] rotate(s, r)) <= 0 by {
        assert(rotate(s, r) =~= s);
        lemma_codes_cmp_skip(s, s, s.len() as int);
    }
}

/// A canonical candidate of a well-formed component is well formed, one tree shorter,
/// with the same number of vertices.
pub proof fn lemma_candidate_props(c: Seq<Seq<u8>>, i: int)
    requires
        well_formed(c),
        candidate_spec(c, i) is Some,
    ensures
        c.len() >= 2,
        0 <= i < 2 * (c.len() - 1),
        well_formed(candidate_spec(c, i).unwrap()),
        canonical(candidate_spec(c, i).unwrap()),
        total_size(candidate_spec(c, i).unwrap()) == total_size(c),
        candidate_spec(c, i).unwrap().len() == c.len() - 1,
{
    let k = c.len() as int;
    if i < k - 1 {
        crate::comp::lemma_splice_merge(c, i, i, i + 1);
    } else {
        let j = i - (k - 1);
        crate::comp::lemma_splice_merge(c, j, j + 1, j);
    }
}

/// The digits of a position of the walk: for each ancestor twice the index of the
/// candidate taken, less one; for the current component twice its cursor; then zeros.
pub open spec fn walk_digits(n: nat, len: int, taken: Seq<int>, i: int) -> Seq<int> {
    Seq::new(
        n,
        |j: int|
            if j < len - 1 {
                2 * taken[j] - 1
            } else if j == len - 1 {
                2 * i
            } else {
                0
            },
    )
}

/// The largest number with `n` digits in base `4 n`.
pub open spec fn walk_top(n: nat) -> int {
    horner(Seq::new(n, |j: int| 4 * n - 1), 4 * n as int)
}

/// The trail of a walk from the bare cycle on `n` vertices: each component on it is
/// well formed and canonical, and each is the candidate `taken[j] - 1` of the one before,
/// whose parent it is.
pub open spec fn path_ok(n: int, path: Seq<Seq<Seq<u8>>>, taken: Seq<int>) -> bool {
    &&& 1 <= n <= 255
    &&& 1 <= path.len() <= n
    &&& taken.len() == path.len() - 1
    &&& path[0] == cycle_codes(n as nat)
    &&& forall|j: int|
        0 <= j < path.len() ==> {
            &&& well_formed(#[trigger] path[j])
            &&& canonical(path[j])
            &&& total_size(path[j]) == n
            &&& path[j].len() == n - j
        }
    &&& forall|j: int|
        0 <= j < path.len() - 1 ==> {
            &&& 1 <= #[trigger] taken[j] <= 2 * (n - j - 1)
            &&& candidate_spec(path[j], taken[j] - 1) == Some(path[j + 1])
            &&& parent_spec(path[j + 1]) == Some(path[j])
        }
}

/// A child found by candidate `ci` extends the trail.
pub proof fn lemma_path_push(
    n: int,
    path: Seq<Seq<Seq<u8>>>,
    taken: Seq<int>,
    ci: int,
    next: Seq<Seq<u8>>,
)
    requires
        path_ok(n, path, taken),
        0 <= ci < 2 * (n - path.len()),
        candidate_spec(path.last(), ci) == Some(next),
        parent_spec(next) == Some(path.last()),
    ensures
        path_ok(n, path.push(next), taken.push(ci + 1)),
{
    let len = path.len() as int;
    lemma_candidate_props(path[len - 1], ci);
    let p2 = path.push(next);
    let t2 = taken.push(ci + 1);
    assert forall|j: int| 0 <= j < len + 1 implies {
        &&& well_formed(#[trigger] p2[j])
        &&& canonical(p2[j])
        &&& total_size(p2[j]) == n
        &&& p2[j].len() == n - j
    } by {
        if j < len {
            assert(p2[j] == path[j]);
        }
    }
    assert forall|j: int| 0 <= j < len implies {
        &&& 1 <= #[trigger] t2[j] <= 2 * (n - j - 1)
        &&& candidate_spec(p2[j], t2[j] - 1) == Some(p2[j + 1])
        &&& parent_spec(p2[j + 1]) == Some(p2[j])
    } by {
        if j < len - 1 {
            assert(t2[j] == taken[j]);
            assert(p2[j] == path[j]);
            assert(p2[j + 1] == path[j + 1]);
        }
    }
}

/// Dropping the last component keeps a trail.
pub proof fn lemma_path_pop(n: int, path: Seq<Seq<Seq<u8>>>, taken: Seq<int>)
    requires
        path_ok(n, path, taken),
        path.len() >= 2,
    ensures
        path_ok(n, path.drop_last(), taken.drop_last()),
{
    let len = path.len() as int;
    let p2 = path.drop_last();
    let t2 = taken.drop_last();
    assert forall|j: int| 0 <= j < len - 1 implies {
        &&& well_formed(#[trigger] p2[j])
        &&& canonical(p2[j])
        &&& total_size(p2[j]) == n
        &&& p2[j].len() == n - j
    } by {
        assert(p2[j] == path[j]);
    }
    assert forall|j: int| 0 <= j < len - 2 implies {
        &&& 1 <= #[trigger] t2[j] <= 2 * (n - j - 1)
        &&& candidate_spec(p2[j], t2[j] - 1) == Some(p2[j + 1])
        &&& parent_spec(p2[j + 1]) == Some(p2[j])
    } by {
        assert(t2[j] == taken[j]);
        assert(p2[j] == path[j]);
        assert(p2[j + 1] == path[j + 1]);
    }
}

/// The ancestors of `c` in the generation tree, `m` steps up, the root first.
pub open spec fn ancestors(c: Seq<Seq<u8>>, m: nat) -> Seq<Seq<Seq<u8>>>
    decreases m,
{
    if m == 0 {
        seq![c]
    } else {
        match parent_spec(c) {
            Some(p) => ancestors(p, (m - 1) as nat).push(c),
            None => seq![c],
        }
    }
}

/// For each step down a trail, one past the candidate index that `backtrack` recovers.
pub open spec fn taken_of(path: Seq<Seq<Seq<u8>>>) -> Seq<int> {
    Seq::new(
        (path.len() - 1) as nat,
        |j: int|
            match backtrack_spec(path[j + 1]) {
                Some(x) => x + 1,
                None => 0,
            },
    )
}

/// The position of the walk at which `c` is handed out, as a number: on arrival for
/// an even depth, on the return to its parent for an odd one. It depends on `c` alone.
pub open spec fn emit_key(n: nat, c: Seq<Seq<u8>>) -> int {
    let path = ancestors(c, (n - c.len()) as nat);
    let taken = taken_of(path);
    let len = path.len() as int;
    if (len - 1) % 2 == 0 {
        horner(walk_digits(n, len, taken, 0), 4 * n as int)
    } else {
        horner(walk_digits(n, len - 1, taken.drop_last(), taken.last()), 4 * n as int)
    }
}

/// A trail is the chain of ancestors of its last component, and the indices taken are
/// those that `backtrack` recovers.
pub proof fn lemma_path_determined(n: int, path: Seq<Seq<Seq<u8>>>, taken: Seq<int>)
    requires
        path_ok(n, path, taken),
    ensures
        path == ancestors(path.last(), (n - path.last().len()) as nat),
        taken == taken_of(path),
    decreases path.len(),
{
    let len = path.len() as int;
    if len >= 2 {
        lemma_path_pop(n, path, taken);
        lemma_path_determined(n, path.drop_last(), taken.drop_last());
        assert(path.drop_last().last() == path[len - 2]);
        assert(1 <= taken[len - 2]);
        assert(parent_spec(path[len - 1]) == Some(path[len - 2]));
        assert(path.drop_last().push(path.last()) =~= path);
    } else {
        assert(path =~= seq![path.last()]);
    }
    assert forall|j: int| 0 <= j < len - 1 implies #[trigger] taken_of(path)[j] == taken[j] by {
        assert(well_formed(path[j]));
        lemma_backtrack_candidate(path[j], taken[j] - 1);
    }
    assert(taken =~= taken_of(path));
}

/// `c` when its depth is odd: such components are handed out on the way back up.
pub open spec fn post(c: Seq<Seq<u8>>, depth: int) -> Seq<Seq<Seq<u8>>> {
    if depth % 2 == 1 {
        seq![c]
    } else {
        Seq::empty()
    }
}

/// Whether candidate `i` of `c` is a child of `c` in the generation tree.
pub open spec fn is_child(c: Seq<Seq<u8>>, i: int) -> bool {
    &&& candidate_spec(c, i) is Some
    &&& parent_spec(candidate_spec(c, i).unwrap()) == Some(c)
    &&& candidate_spec(c, i).unwrap().len() < c.len()
}

/// What the depth-first walk hands out in the subtree rooted at `c`, at depth `depth`:
/// `c` first when the depth is even, last when it is odd, and between them the subtrees
/// of its children in the order of the candidates.
pub open spec fn subtree(c: Seq<Seq<u8>>, depth: int) -> Seq<Seq<Seq<u8>>>
    decreases c.len(), 2 * c.len() + 1,
{
    if depth % 2 == 0 {
        seq![c] + children_from(c, 0, depth)
    } else {
        children_from(c, 0, depth) + seq![c]
    }
}

/// The subtrees of the children of `c` reached by candidates `i` onwards.
pub open spec fn children_from(c: Seq<Seq<u8>>, i: int, depth: int) -> Seq<Seq<Seq<u8>>>
    decreases c.len(), 2 * c.len() - i,
{
    if i < 0 || i >= 2 * (c.len() - 1) {
        Seq::empty()
    } else if is_child(c, i) {
        subtree(candidate_spec(c, i).unwrap(), depth + 1) + children_from(c, i + 1, depth)
    } else {
        children_from(c, i + 1, depth)
    }
}

/// Everything the depth-first walk over the components on `n` vertices hands out, in
/// order: the subtree of the bare cycle.
pub open spec fn walk_seq(n: nat) -> Seq<Seq<Seq<u8>>> {
    if n == 0 {
        Seq::empty()
    } else {
        subtree(cycle_codes(n), 0)
    }
}

/// On one vertex the walk hands out the single self-loop and nothing else.
pub proof fn lemma_walk_one()
    ensures
        walk_seq(1) == seq![seq![seq![1u8]]],
{
    let c = cycle_codes(1);
    assert(c =~= seq![seq![1u8]]);
    assert(children_from(c, 0, 0) =~= Seq::<Seq<Seq<u8>>>::empty());
    assert(walk_seq(1) =~= seq![c]);
}

/// What is still to be handed out from a position of the walk: the rest of each
/// component on the trail, innermost first.
pub open spec fn rem(path: Seq<Seq<Seq<u8>>>, taken: Seq<int>, i: int) -> Seq<Seq<Seq<u8>>>
    decreases path.len(),
{
    if path.len() == 0 {
        Seq::empty()
    } else {
        let d = path.len() - 1;
        children_from(path[d], i, d) + post(path[d], d) + rem(
            path.drop_last(),
            taken.drop_last(),
            if taken.len() > 0 {
                taken.last()
            } else {
                0
            },
        )
    }
}

pub proof fn lemma_rem_skip(path: Seq<Seq<Seq<u8>>>, taken: Seq<int>, i: int)
    requires
        path.len() >= 1,
        0 <= i,
        !is_child(path.last(), i),
    ensures
        rem(path, taken, i) == rem(path, taken, i + 1),
{
    let d = path.len() - 1;
    assert(children_from(path[d], i, d) == children_from(path[d], i + 1, d));
}

/// A child's subtree comes first among the children from its candidate on.
pub proof fn lemma_children_step(c: Seq<Seq<u8>>, i: int, depth: int)
    requires
        0 <= i < 2 * (c.len() - 1),
        is_child(c, i),
    ensures
        children_from(c, i, depth) == subtree(candidate_spec(c, i).unwrap(), depth + 1)
            + children_from(c, i + 1, depth),
{
}

/// A subtree: the component before its children at an even depth, after them at an odd one.
pub proof fn lemma_subtree_shape(d: Seq<Seq<u8>>, depth: int)
    requires
        depth >= 0,
    ensures
        subtree(d, depth) == (if depth % 2 == 0 {
            seq![d]
        } else {
            Seq::empty()
        }) + children_from(d, 0, depth) + post(d, depth),
{
    if depth % 2 == 0 {
        assert(subtree(d, depth) =~= seq![d] + children_from(d, 0, depth) + post(d, depth));
    } else {
        assert(subtree(d, depth) =~= Seq::empty() + children_from(d, 0, depth) + post(d, depth));
    }
}

/// `rem` on a trail, unfolded once.
pub proof fn lemma_rem_unfold(path: Seq<Seq<Seq<u8>>>, taken: Seq<int>, i: int)
    requires
        path.len() >= 1,
        taken.len() == path.len() - 1,
    ensures
        rem(path, taken, i) == children_from(path.last(), i, path.len() - 1) + post(
            path.last(),
            path.len() - 1,
        ) + rem(path.drop_last(), taken.drop_last(), if taken.len() > 0 {
            taken.last()
        } else {
            0
        }),
        path.len() == 1 ==> rem(path, taken, i) == children_from(path.last(), i, 0),
{
    if path.len() == 1 {
        assert(rem(path.drop_last(), taken.drop_last(), 0) =~= Seq::<Seq<Seq<u8>>>::empty());
        assert(post(path.last(), 0) =~= Seq::<Seq<Seq<u8>>>::empty());
        assert(rem(path, taken, i) =~= children_from(path.last(), i, 0));
    }
}

#[verifier::rlimit(30)]
pub proof fn lemma_rem_descend(
    n: int,
    path: Seq<Seq<Seq<u8>>>,
    taken: Seq<int>,
    i: int,
    d: Seq<Seq<u8>>,
)
    requires
        path_ok(n, path, taken),
        0 <= i < 2 * (path.last().len() - 1),
        candidate_spec(path.last(), i) == Some(d),
        parent_spec(d) == Some(path.last()),
    ensures
        rem(path, taken, i) == (if path.len() % 2 == 0 {
            seq![d]
        } else {
            Seq::empty()
        }) + rem(path.push(d), taken.push(i + 1), 0),
{
    let len = path.len() as int;
    let c = path[len - 1];
    assert(well_formed(c));
    lemma_candidate_props(c, i);
    assert(is_child(c, i));
    let p2 = path.push(d);
    let t2 = taken.push(i + 1);
    assert(p2.drop_last() =~= path);
    assert(t2.drop_last() =~= taken);
    let up = rem(path.drop_last(), taken.drop_last(), if taken.len() > 0 { taken.last() } else { 0 });
    lemma_rem_unfold(path, taken, i);
    lemma_rem_unfold(path, taken, i + 1);
    lemma_rem_unfold(p2, t2, 0);
    lemma_children_step(c, i, len - 1);
    lemma_subtree_shape(d, len);
    let pre: Seq<Seq<Seq<u8>>> = if len % 2 == 0 { seq![d] } else { Seq::empty() };
    assert(rem(path, taken, i) =~= pre + rem(p2, t2, 0));
}

pub proof fn lemma_rem_ascend(path: Seq<Seq<Seq<u8>>>, taken: Seq<int>, i: int)
    requires
        path.len() >= 2,
        taken.len() == path.len() - 1,
        i >= 2 * (path.last().len() - 1),
    ensures
        rem(path, taken, i) == post(path.last(), path.len() - 1) + rem(
            path.drop_last(),
            taken.drop_last(),
            taken.last(),
        ),
{
    let d = path.len() - 1;
    assert(children_from(path[d], i, d) =~= Seq::<Seq<Seq<u8>>>::empty());
    assert(rem(path, taken, i) =~= post(path.last(), path.len() - 1) + rem(
        path.drop_last(),
        taken.drop_last(),
        taken.last(),
    ));
}

/// A depth-first walk over the generation tree of the components on `n` vertices,
/// rooted at the bare cycle. Components at even depth are handed out when the walk
/// reaches them, those at odd depth when it leaves them.
pub struct Walk {
    n: usize,
    first: Comp,
    curr: Comp,
    i: usize,
    depth: usize,
    started: bool,
    done: bool,
    test: RotationTest,
    path: Ghost<Seq<Seq<Seq<u8>>>>,
    taken: Ghost<Seq<int>>,
    log: Ghost<Seq<Seq<Seq<u8>>>>,
}

impl Walk {
    /// Number of vertices of the components walked over.
    pub closed spec fn size(&self) -> nat {
        self.n as nat
    }

    /// Whether the walk has not handed out anything yet and has something to hand out.
    pub closed spec fn fresh(&self) -> bool {
        !self.done && !self.started
    }

    /// Whether the walk has handed out its last component.
    pub closed spec fn finished(&self) -> bool {
        self.done
    }

    pub closed spec fn digits(&self) -> Seq<int> {
        walk_digits(self.n as nat, self.path@.len() as int, self.taken@, self.i as int)
    }

    /// What is left of the walk: it shrinks with each component handed out.
    pub closed spec fn measure(&self) -> int {
        if self.done {
            0
        } else {
            walk_top(self.n as nat) - horner(self.digits(), 4 * self.n as int) + if self.started {
                1int
            } else {
                2int
            }
        }
    }

    pub closed spec fn wf(&self) -> bool {
        &&& self.n <= 255
        &&& self.done || self.wf_active()
        &&& forall|a: int, b: int|
            0 <= a < b < self.log@.len() ==> emit_key(self.n as nat, #[trigger] self.log@[a])
                < emit_key(self.n as nat, #[trigger] self.log@[b])
        &&& !self.done ==> forall|a: int|
            0 <= a < self.log@.len() ==> emit_key(self.n as nat, #[trigger] self.log@[a])
                <= horner(self.digits(), 4 * self.n as int)
        &&& !self.done && !self.started ==> self.log@.len() == 0
        &&& self.done ==> self.log@ == walk_seq(self.n as nat)
        &&& !self.done && self.started ==> self.log@ + rem(self.path@, self.taken@, self.i as int)
            == walk_seq(self.n as nat)
        &&& forall|a: int|
            0 <= a < self.log@.len() ==> {
                &&& well_formed(#[trigger] self.log@[a])
                &&& canonical(self.log@[a])
                &&& total_size(self.log@[a]) == self.n
            }
    }

    /// What has been handed out is the start of `walk_seq`; all of it once finished.
    pub proof fn lemma_prefix(&self)
        requires
            self.wf(),
        ensures
            self.emitted().len() <= walk_seq(self.size()).len(),
            self.emitted() == walk_seq(self.size()).subrange(0, self.emitted().len() as int),
            self.finished() ==> self.emitted() == walk_seq(self.size()),
            forall|a: int|
                0 <= a < self.emitted().len() ==> {
                    &&& well_formed(#[trigger] self.emitted()[a])
                    &&& canonical(self.emitted()[a])
                    &&& total_size(self.emitted()[a]) == self.size()
                },
    {
        let w = walk_seq(self.n as nat);
        let l = self.log@;
        if self.done {
            assert(w.subrange(0, l.len() as int) =~= l);
        } else if self.started {
            let r = rem(self.path@, self.taken@, self.i as int);
            assert((l + r).subrange(0, l.len() as int) =~= l);
        } else {
            assert(w.subrange(0, 0) =~= l);
        }
    }

    /// The codes of the components handed out so far, in order.
    pub closed spec fn emitted(&self) -> Seq<Seq<Seq<u8>>> {
        self.log@
    }

    /// The walk never hands out the same component twice.
    pub proof fn lemma_no_repeats(&self)
        requires
            self.wf(),
        ensures
            forall|a: int, b: int|
                0 <= a < b < self.emitted().len() ==> #[trigger] self.emitted()[a]
                    != #[trigger] self.emitted()[b],
    {
        assert forall|a: int, b: int| 0 <= a < b < self.emitted().len() implies #[trigger] self.emitted()[a]
            != #[trigger] self.emitted()[b] by {
            assert(emit_key(self.n as nat, self.log@[a]) < emit_key(self.n as nat, self.log@[b]));
        }
    }

    pub closed spec fn wf_active(&self) -> bool {
        let n = self.n as int;
        let len = self.path@.len() as int;
        &&& path_ok(n, self.path@, self.taken@)
        &&& codes(self.first@) == self.path@[0]
        &&& codes(self.curr@) == self.path@[len - 1]
        &&& self.i <= 2 * (n - len)
        &&& self.depth == (len - 1) % 2
        &&& !self.started ==> len == 1 && self.i == 0
    }

    proof fn lemma_digits(&self)
        requires
            self.wf_active(),
        ensures
            digits_ok(self.digits(), 4 * self.n as int),
            0 <= horner(self.digits(), 4 * self.n as int) <= walk_top(self.n as nat),
    {
        let b = 4 * self.n as int;
        let d = self.digits();
        assert forall|j: int| 0 <= j < d.len() implies 0 <= #[trigger] d[j] < b by {
            if j < self.path@.len() - 1 {
                assert(1 <= self.taken@[j] <= 2 * (self.n - j - 1));
            }
        }
        lemma_horner_nonneg(d, b);
        lemma_horner_max(d, b);
        assert(Seq::new(d.len(), |j: int| b - 1) =~= Seq::new(self.n as nat, |j: int| 4 * (self.n as nat) - 1));
    }

    /// The next component of the walk, or none once every one has been handed out.
    /// Each one handed out is well formed, canonical and has `size()` vertices.
    pub fn next(&mut self) -> (r: Option<Comp>)
        requires
            old(self).wf(),
        ensures
            final(self).wf(),
            final(self).size() == old(self).size(),
            final(self).measure() >= 0,
            r is Some ==> final(self).measure() < old(self).measure(),
            r is None ==> final(self).finished(),
            old(self).finished() ==> r is None,
            !final(self).fresh(),
            old(self).fresh() ==> r is Some && codes(r->0@) == cycle_codes(old(self).size()),
            final(self).emitted() == match r {
                Some(c) => old(self).emitted().push(codes(c@)),
                None => old(self).emitted(),
            },
            final(self).emitted() == walk_seq(final(self).size()).subrange(
                0,
                final(self).emitted().len() as int,
            ),
            r is None ==> final(self).emitted() == walk_seq(final(self).size()),
            match r {
                Some(c) => {
                    &&& well_formed(codes(c@))
                    &&& canonical(codes(c@))
                    &&& total_size(codes(c@)) == old(self).size()
                },
                None => true,
            },
    {
        if self.done {
            proof {
                self.lemma_prefix();
            }
            return None;
        }
        proof {
            self.lemma_digits();
        }
        if !self.started {
            self.started = true;
            let out = copy_comp(&self.curr);
            proof {
                self.lemma_digits();
                lemma_path_determined(self.n as int, self.path@, self.taken@);
                self.lemma_curr();
                let c0 = cycle_codes(self.n as nat);
                assert(self.path@ =~= seq![c0]);
                lemma_rem_unfold(self.path@, self.taken@, 0);
                self.log@ = self.log@.push(codes(out@));
                assert(self.log@ + rem(self.path@, self.taken@, self.i as int) =~= walk_seq(
                    self.n as nat,
                ));
                self.lemma_prefix();
            }
            return Some(out);
        }
        let n = self.n;
        let ghost b = 4 * n as int;
        let ghost h0 = horner(self.digits(), b);
        loop
            invariant
                self.wf(),
                !self.done,
                self.started,
                self.n == n,
                old(self).n == n,
                old(self).started,
                !old(self).done,
                b == 4 * n as int,
                h0 == horner(old(self).digits(), b),
                horner(self.digits(), b) >= h0,
                self.log == old(self).log,
            decreases walk_top(n as nat) - horner(self.digits(), b),
        {
            proof {
                self.lemma_digits();
            }
            match self.step() {
                Some(Some(c)) => {
                    proof {
                        self.lemma_digits();
                        self.lemma_prefix();
                    }
                    return Some(c);
                },
                Some(None) => {
                    proof {
                        self.lemma_prefix();
                    }
                    return None;
                },
                None => {
                    proof {
                        self.lemma_digits();
                    }
                },
            }
        }
    }

    /// One move of the walk: along a candidate, down to a child, or back up to the parent.
    /// Gives the component handed out on the way, if any, or notes the end of the walk.
    #[verifier::rlimit(60)]
    fn step(&mut self) -> (r: Option<Option<Comp>>)
        requires
            old(self).wf(),
            !old(self).done,
            old(self).started,
        ensures
            final(self).wf(),
            final(self).n == old(self).n,
            r matches Some(None) ==> final(self).done && final(self).log == old(self).log,
            !(r matches Some(None)) ==> {
                &&& !final(self).done
                &&& final(self).started
                &&& horner(final(self).digits(), 4 * final(self).n as int) > horner(
                    old(self).digits(),
                    4 * old(self).n as int,
                )
            },
            r is None ==> final(self).log == old(self).log,
            r matches Some(Some(c)) ==> {
                &&& final(self).log@ == old(self).log@.push(codes(c@))
                &&& well_formed(codes(c@))
                &&& canonical(codes(c@))
                &&& total_size(codes(c@)) == old(self).n
            },
    {
        let n = self.n;
        let ghost b = 4 * n as int;
        proof {
            self.lemma_digits();
        }
        let ghost hb = horner(self.digits(), b);
        proof {
            self.lemma_digits();
        }
        if self.i < n_candidates(&self.curr) {
            let cand = candidate_by(&self.curr, self.i, self.test);
            let mut descended = false;
            match cand {
                Some(next) => {
                    proof {
                        self.lemma_curr();
                        lemma_candidate_props(codes(self.curr@), self.i as int);
                        crate::comp::lemma_shapes(next@);
                    }
                    let par = parent(&next);
                    let back = match par {
                        Some(p) => same_comp(&p, &self.curr),
                        None => false,
                    };
                    if back {
                        proof {
                            lemma_rem_descend(n as int, self.path@, self.taken@, self.i as int, codes(next@));
                        }
                        self.descend(next);
                        descended = true;
                    } else {
                        proof {
                            lemma_rem_skip(self.path@, self.taken@, self.i as int);
                        }
                        self.skip();
                    }
                },
                None => {
                    proof {
                        lemma_rem_skip(self.path@, self.taken@, self.i as int);
                    }
                    self.skip();
                },
            }
            if descended && self.depth == 0 {
                let out = copy_comp(&self.curr);
                proof {
                    self.lemma_digits();
                    self.lemma_curr();
                    let c = codes(out@);
                    let l0 = self.log@;
                    self.log@ = self.log@.push(c);
                    assert(l0 + (seq![c] + rem(self.path@, self.taken@, self.i as int)) =~= self.log@
                        + rem(self.path@, self.taken@, self.i as int));
                }
                return Some(Some(out));
            }
        } else if !same_comp(&self.curr, &self.first) {
            proof {
                self.lemma_curr();
            }
            let emit = self.depth == 1;
            let out = if emit {
                Some(copy_comp(&self.curr))
            } else {
                None
            };
            let ghost c0 = codes(self.curr@);
            proof {
                lemma_rem_ascend(self.path@, self.taken@, self.i as int);
            }
            self.ascend();
            if emit {
                proof {
                    self.lemma_digits();
                    let l0 = self.log@;
                    self.log@ = self.log@.push(c0);
                    assert(l0 + (seq![c0] + rem(self.path@, self.taken@, self.i as int)) =~= self.log@
                        + rem(self.path@, self.taken@, self.i as int));
                }
                return Some(out);
            }
        } else {
            proof {
                self.lemma_curr();
                let c0 = self.path@[0];
                assert(self.path@.len() == 1);
                lemma_rem_unfold(self.path@, self.taken@, self.i as int);
                assert(children_from(c0, self.i as int, 0) =~= Seq::<Seq<Seq<u8>>>::empty());
                assert(self.log@ =~= walk_seq(n as nat));
            }
            self.done = true;
            return Some(None);
        }
        proof {
            self.lemma_digits();
        }
        None
    }

    proof fn lemma_curr(&self)
        requires
            self.wf_active(),
        ensures
            well_formed(codes(self.curr@)),
            canonical(codes(self.curr@)),
            total_size(codes(self.curr@)) == self.n,
            codes(self.curr@).len() == self.n - self.path@.len() + 1,
            self.curr@.len() == self.n - self.path@.len() + 1,
            forall|q: int| 0 <= q < self.curr@.len() ==> crate::tree::tree_shape(#[trigger] self.curr@[q]@),
    {
        let len = self.path@.len() as int;
        assert(well_formed(self.path@[len - 1]));
        assert forall|q: int| 0 <= q < self.curr@.len() implies crate::tree::tree_shape(#[trigger] self.curr@[q]@) by {
            assert(codes(self.curr@)[q] == self.curr@[q]@);
        }
    }

    /// Moves the cursor past a candidate that is not a child.
    fn skip(&mut self)
        requires
            old(self).wf_active(),
            old(self).started,
            (old(self).i as int) < 2 * (old(self).n - old(self).path@.len()),
        ensures
            final(self).wf_active(),
            final(self).n == old(self).n,
            final(self).done == old(self).done,
            final(self).started == old(self).started,
            final(self).depth == old(self).depth,
            final(self).log == old(self).log,
            final(self).path@ == old(self).path@,
            final(self).taken@ == old(self).taken@,
            final(self).i == old(self).i + 1,
            horner(final(self).digits(), 4 * final(self).n as int) > horner(old(self).digits(), 4 * old(self).n as int),
    {
        let ghost before = self.digits();
        let ghost len = self.path@.len() as int;
        proof {
            self.lemma_digits();
        }
        self.i = self.i + 1;
        proof {
            self.lemma_digits();
            lemma_horner_lex(before, self.digits(), 4 * self.n as int, len - 1);
        }
    }

    /// Takes candidate `i`, a child of the current component, as the new current one.
    fn descend(&mut self, next: Comp)
        requires
            old(self).wf_active(),
            old(self).started,
            (old(self).i as int) < 2 * (old(self).n - old(self).path@.len()),
            candidate_spec(codes(old(self).curr@), old(self).i as int) == Some(codes(next@)),
            parent_spec(codes(next@)) == Some(codes(old(self).curr@)),
        ensures
            final(self).wf_active(),
            final(self).n == old(self).n,
            final(self).done == old(self).done,
            final(self).started == old(self).started,
            final(self).log == old(self).log,
            final(self).path@ == old(self).path@.push(codes(next@)),
            final(self).taken@ == old(self).taken@.push(old(self).i + 1),
            final(self).i == 0,
            final(self).depth == 0 ==> emit_key(final(self).n as nat, codes(final(self).curr@))
                == horner(final(self).digits(), 4 * final(self).n as int),
            horner(final(self).digits(), 4 * final(self).n as int) > horner(old(self).digits(), 4 * old(self).n as int),
    {
        let ghost before = self.digits();
        let ghost len = self.path@.len() as int;
        let ghost path = self.path@;
        let ghost taken = self.taken@;
        let ghost ci = self.i as int;
        let ghost n = self.n as int;
        proof {
            self.lemma_digits();
            lemma_path_push(n, path, taken, ci, codes(next@));
            self.path@ = path.push(codes(next@));
            self.taken@ = taken.push(ci + 1);
        }
        self.i = 0;
        self.curr = next;
        self.depth = 1 - self.depth;
        proof {
            assert(self.wf_active());
            self.lemma_digits();
            lemma_horner_lex(before, self.digits(), 4 * n, len - 1);
            lemma_path_determined(n, self.path@, self.taken@);
        }
    }

    /// Goes back from the current component to its parent, with the cursor just past
    /// the candidate that led to it.
    fn ascend(&mut self)
        requires
            old(self).wf_active(),
            codes(old(self).curr@) != codes(old(self).first@),
        ensures
            final(self).wf_active(),
            final(self).n == old(self).n,
            final(self).done == old(self).done,
            final(self).started == old(self).started,
            final(self).log == old(self).log,
            final(self).path@ == old(self).path@.drop_last(),
            final(self).taken@ == old(self).taken@.drop_last(),
            final(self).i == old(self).taken@.last(),
            old(self).depth == 1 ==> emit_key(old(self).n as nat, codes(old(self).curr@))
                == horner(final(self).digits(), 4 * final(self).n as int),
            horner(final(self).digits(), 4 * final(self).n as int) > horner(old(self).digits(), 4 * old(self).n as int),
    {
        let ghost before = self.digits();
        let ghost len = self.path@.len() as int;
        let ghost path = self.path@;
        let ghost taken = self.taken@;
        let ghost n = self.n as int;
        proof {
            self.lemma_digits();
            self.lemma_curr();
            lemma_path_determined(n, path, taken);
            assert(len >= 2);
            lemma_backtrack_candidate(path[len - 2], taken[len - 2] - 1);
        }
        let bt = backtrack(&self.curr);
        let par = parent(&self.curr);
        match (bt, par) {
            (Some(k), Some(p)) => {
                proof {
                    lemma_path_pop(n, path, taken);
                    self.path@ = path.drop_last();
                    self.taken@ = taken.drop_last();
                }
                self.i = k + 1;
                self.curr = p;
                self.depth = 1 - self.depth;
                proof {
                    assert(self.i == taken.last());
                    assert(self.wf_active());
                    self.lemma_digits();
                    lemma_horner_lex(before, self.digits(), 4 * n, len - 2);
                }
            },
            _ => {
                proof {
                    assert(false);
                }
            },
        }
    }

    /// The walk over the components on `n` vertices; none for `n == 0`.
    pub fn new(n: usize) -> (w: Walk)
        requires
            n <= 255,
        ensures
            w.wf(),
            w.size() == n,
            w.finished() == (n == 0),
            w.fresh() == (n != 0),
            w.emitted().len() == 0,
    {
        Walk::with_test(n, RotationTest::Naive)
    }

    /// The walk over the components on `n` vertices, testing least rotations by `test`.
    pub fn with_test(n: usize, test: RotationTest) -> (w: Walk)
        requires
            n <= 255,
        ensures
            w.wf(),
            w.size() == n,
            w.finished() == (n == 0),
            w.fresh() == (n != 0),
            w.emitted().len() == 0,
    {
        let first = cycle(n);
        let curr = cycle(n);
        let ghost p0: Seq<Seq<Seq<u8>>> = seq![cycle_codes(n as nat)];
        let ghost t0: Seq<int> = Seq::empty();
        let ghost l0: Seq<Seq<Seq<u8>>> = Seq::empty();
        let w = Walk {
            n,
            first,
            curr,
            i: 0,
            depth: 0,
            started: false,
            done: n == 0,
            test,
            path: Ghost(p0),
            taken: Ghost(t0),
            log: Ghost(l0),
        };
        proof {
            lemma_cycle_canonical(n as nat);
        }
        w
    }
}

/// Counts the components on `n` vertices handed out by a walk over their generation
/// tree: the length of `walk_seq(n)`, saturating at `u128::MAX`. None of them is handed
/// out twice, and each is a well-formed canonical component on `n` vertices.
pub fn generate(n: usize) -> (count: u128)
    requires
        n <= 255,
    ensures
        count == if walk_seq(n as nat).len() < u128::MAX {
            walk_seq(n as nat).len() as u128
        } else {
            u128::MAX
        },
        forall|a: int, b: int|
            0 <= a < b < walk_seq(n as nat).len() ==> #[trigger] walk_seq(n as nat)[a]
                != #[trigger] walk_seq(n as nat)[b],
        forall|a: int|
            0 <= a < walk_seq(n as nat).len() ==> {
                &&& well_formed(#[trigger] walk_seq(n as nat)[a])
                &&& canonical(walk_seq(n as nat)[a])
                &&& total_size(walk_seq(n as nat)[a]) == n
            },
        n == 0 ==> count == 0,
{
    generate_by(n, RotationTest::Naive)
}

/// `generate` with the least-rotation test chosen by `test`; the result does not depend
/// on the choice.
pub fn generate_by(n: usize, test: RotationTest) -> (count: u128)
    requires
        n <= 255,
    ensures
        count == if walk_seq(n as nat).len() < u128::MAX {
            walk_seq(n as nat).len() as u128
        } else {
            u128::MAX
        },
        forall|a: int, b: int|
            0 <= a < b < walk_seq(n as nat).len() ==> #[trigger] walk_seq(n as nat)[a]
                != #[trigger] walk_seq(n as nat)[b],
        forall|a: int|
            0 <= a < walk_seq(n as nat).len() ==> {
                &&& well_formed(#[trigger] walk_seq(n as nat)[a])
                &&& canonical(walk_seq(n as nat)[a])
                &&& total_size(walk_seq(n as nat)[a]) == n
            },
        n == 0 ==> count == 0,
{
    let mut w = Walk::with_test(n, test);
    let mut count: u128 = 0;
    loop
        invariant
            w.wf(),
            w.size() == n,
            count == if w.emitted().len() < u128::MAX {
                w.emitted().len() as u128
            } else {
                u128::MAX
            },
        decreases w.measure(),
    {
        match w.next() {
            Some(_) => {
                if count < u128::MAX {
                    count = count + 1;
                }
            },
            None => {
                proof {
                    w.lemma_prefix();
                    w.lemma_no_repeats();
                }
                return count;
            },
        }
    }
}

} // verus!
