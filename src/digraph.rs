use vstd::prelude::*;

use crate::comp::{canonical, copy_comp, cycle, same_comp, total_size, well_formed, Comp};
use crate::digraph6::{digraph_codes, digraph_size};
use crate::rotation::{codes, RotationTest};
use crate::walk::{walk_seq, Walk};

verus! {

/// A digraph on `n` vertices given by its components: each is nonempty, well formed and
/// canonical.
pub open spec fn digraph_ok(n: int, g: Seq<Comp>) -> bool {
    &&& forall|k: int|
        0 <= k < g.len() ==> {
            &&& well_formed(#[trigger] codes(g[k]@))
            &&& canonical(codes(g[k]@))
            &&& g[k]@.len() >= 1
        }
    &&& digraph_size(digraph_codes(g), g.len() as int) == n
}

/// The vertex count of the first `m` components depends on them alone.
pub proof fn lemma_digraph_size_prefix(a: Seq<Seq<Seq<u8>>>, b: Seq<Seq<Seq<u8>>>, m: int)
    requires
        0 <= m <= a.len(),
        m <= b.len(),
        forall|i: int| 0 <= i < m ==> a[i] == b[i],
    ensures
        digraph_size(a, m) == digraph_size(b, m),
    decreases m,
{
    if m > 0 {
        lemma_digraph_size_prefix(a, b, m - 1);
    }
}

/// `x`, or `u128::MAX` when it does not fit.
pub open spec fn saturate(x: nat) -> nat {
    if x < u128::MAX {
        x
    } else {
        u128::MAX as nat
    }
}

/// Whether the component at place `k` of the walk over size `s` may follow a component
/// `c0` of size `s0`: a larger size always may; the same size from `c0`'s place on.
pub open spec fn reached(s: nat, s0: nat, c0: Seq<Seq<u8>>, k: int, seen: bool) -> bool {
    s > s0 || seen || walk_seq(s)[k] == c0
}

/// Number of digraphs on `rest` more vertices whose components, in nondecreasing
/// order of size and of place in the walk, all come at or after `c0` of size `s0`.
pub open spec fn dg_count(rest: nat, s0: nat, c0: Seq<Seq<u8>>) -> nat
    decreases rest, rest + 2, 0nat,
{
    if rest == 0 {
        1
    } else if s0 == 0 || s0 > rest {
        0
    } else {
        sizes_sum(rest, s0, s0, c0)
    }
}

/// The part of `dg_count` whose first new component has size `s` or more.
pub open spec fn sizes_sum(rest: nat, s: nat, s0: nat, c0: Seq<Seq<u8>>) -> nat
    decreases rest, rest + 1 - s, walk_seq(s).len() + 1,
{
    if s == 0 || s > rest {
        0
    } else {
        ranks_sum(rest, s, s0, c0, 0, false) + sizes_sum(rest, s + 1, s0, c0)
    }
}

/// The part of `dg_count` whose first new component has size `s` and place `k` or later
/// in the walk; `seen` records that `c0` came earlier.
pub open spec fn ranks_sum(rest: nat, s: nat, s0: nat, c0: Seq<Seq<u8>>, k: int, seen: bool) -> nat
    decreases rest, rest + 1 - s, walk_seq(s).len() - k,
{
    if k < 0 || k >= walk_seq(s).len() || s == 0 || s > rest {
        0
    } else {
        let here = if reached(s, s0, c0, k, seen) {
            dg_count((rest - s) as nat, s, walk_seq(s)[k])
        } else {
            0
        };
        here + ranks_sum(rest, s, s0, c0, k + 1, seen || walk_seq(s)[k] == c0)
    }
}

/// On one vertex there is one functional digraph, the single self-loop.
pub proof fn lemma_digraphs_one()
    ensures
        dg_count(1, 1, seq![seq![1u8]]) == 1,
{
    let c = seq![seq![1u8]];
    crate::walk::lemma_walk_one();
    assert(walk_seq(1)[0] == c);
    assert(ranks_sum(1, 1, 1, c, 1, true) == 0);
    assert(dg_count(0, 1, c) == 1);
    assert(ranks_sum(1, 1, 1, c, 0, false) == 1);
    assert(sizes_sum(1, 2, 1, c) == 0);
    assert(sizes_sum(1, 1, 1, c) == 1);
}

/// Hands each functional digraph on `rest` more vertices to `emit`, as `prefix` followed
/// by components in nondecreasing order of size and, within a size, of their place in
/// the walk, the first of them at or after `c0` of size `s0`. Returns how many were
/// handed out, saturating at `u128::MAX`.
fn extend<F: Fn(&Vec<Comp>)>(
    rest: usize,
    s0: usize,
    c0: &Comp,
    prefix: &mut Vec<Comp>,
    emit: &F,
    test: RotationTest,
    n: Ghost<int>,
) -> (count: u128)
    requires
        1 <= s0,
        rest <= 255,
        forall|g: &Vec<Comp>| digraph_ok(n@, g@) ==> emit.requires((g,)),
        forall|k: int|
            0 <= k < old(prefix)@.len() ==> {
                &&& well_formed(#[trigger] codes(old(prefix)@[k]@))
                &&& canonical(codes(old(prefix)@[k]@))
                &&& old(prefix)@[k]@.len() >= 1
            },
        digraph_size(digraph_codes(old(prefix)@), old(prefix)@.len() as int) + rest == n@,
    ensures
        final(prefix)@ == old(prefix)@,
        count == saturate(dg_count(rest as nat, s0 as nat, codes(c0@))),
    decreases rest,
{
    if rest == 0 {
        emit(&*prefix);
        return 1;
    }
    proof {
        crate::digraph6::lemma_digraph_size_mono(digraph_codes(prefix@), 0, prefix@.len() as int);
    }
    let ghost p0 = prefix@;
    let ghost cz = codes(c0@);
    let ghost acc: nat = 0;
    let mut total: u128 = 0;
    let mut s: usize = s0;
    while s <= rest
        invariant
            1 <= s0 <= s,
            s == s0 || s <= rest + 1,
            1 <= rest <= 255,
            prefix@ == p0,
            cz == codes(c0@),
            forall|k: int|
                0 <= k < p0.len() ==> {
                    &&& well_formed(#[trigger] codes(p0[k]@))
                    &&& canonical(codes(p0[k]@))
                    &&& p0[k]@.len() >= 1
                },
            digraph_size(digraph_codes(p0), p0.len() as int) + rest == n@,
            forall|g: &Vec<Comp>| digraph_ok(n@, g@) ==> emit.requires((g,)),
            acc + sizes_sum(rest as nat, s as nat, s0 as nat, cz) == sizes_sum(
                rest as nat,
                s0 as nat,
                s0 as nat,
                cz,
            ),
            total == saturate(acc),
        decreases rest + 1 - s,
    {
        let mut w = Walk::with_test(s, test);
        let mut seen = false;
        let ghost acc0 = acc;
        loop
            invariant
                w.wf(),
                w.size() == s,
                1 <= s0 <= s <= rest <= 255,
                prefix@ == p0,
                cz == codes(c0@),
                forall|k: int|
                    0 <= k < p0.len() ==> {
                        &&& well_formed(#[trigger] codes(p0[k]@))
                        &&& canonical(codes(p0[k]@))
                        &&& p0[k]@.len() >= 1
                    },
                digraph_size(digraph_codes(p0), p0.len() as int) + rest == n@,
                forall|g: &Vec<Comp>| digraph_ok(n@, g@) ==> emit.requires((g,)),
                w.emitted() == walk_seq(s as nat).subrange(0, w.emitted().len() as int),
                acc + ranks_sum(rest as nat, s as nat, s0 as nat, cz, w.emitted().len() as int, seen)
                    == acc0 + ranks_sum(rest as nat, s as nat, s0 as nat, cz, 0, false),
                total == saturate(acc),
            ensures
                prefix@ == p0,
                acc == acc0 + ranks_sum(rest as nat, s as nat, s0 as nat, cz, 0, false),
                total == saturate(acc),
            decreases w.measure(),
        {
            let ghost k = w.emitted().len() as int;
            match w.next() {
                Some(c) => {
                    proof {
                        w.lemma_prefix();
                        assert(w.emitted().len() == k + 1);
                        assert(walk_seq(s as nat).subrange(0, k + 1)[k] == walk_seq(s as nat)[k]);
                        assert(w.emitted()[k] == walk_seq(s as nat)[k]);
                        assert(codes(c@) == walk_seq(s as nat)[k]);
                        assert(k < walk_seq(s as nat).len());
                    }
                    let same = same_comp(&c, c0);
                    let take = s > s0 || seen || same;
                    let ghost here: nat = if take {
                        dg_count((rest - s) as nat, s as nat, codes(c@))
                    } else {
                        0
                    };
                    if take {
                        proof {
                            assert(codes(c@).len() >= 1) by {
                                if codes(c@).len() == 0 {
                                    assert(total_size(codes(c@)) == 0);
                                }
                            }
                        }
                        let cc = copy_comp(&c);
                        prefix.push(c);
                        proof {
                            let len = p0.len() as int;
                            let gs = digraph_codes(prefix@);
                            lemma_digraph_size_prefix(digraph_codes(p0), gs, len);
                            assert(gs[len] == codes(c@));
                            assert(digraph_size(gs, len + 1) == digraph_size(gs, len) + total_size(codes(c@)));
                            assert forall|q: int| 0 <= q < prefix@.len() implies {
                                &&& well_formed(#[trigger] codes(prefix@[q]@))
                                &&& canonical(codes(prefix@[q]@))
                                &&& prefix@[q]@.len() >= 1
                            } by {
                                if q < len {
                                    assert(prefix@[q] == p0[q]);
                                } else {
                                    assert(prefix@[q] == c);
                                }
                            }
                        }
                        let more = extend(rest - s, s, &cc, prefix, emit, test, n);
                        let _ = prefix.pop();
                        proof {
                            assert(prefix@ =~= p0);
                        }
                        total = total.saturating_add(more);
                    }
                    proof {
                        acc = acc + here;
                    }
                    seen = seen || same;
                },
                None => {
                    break;
                },
            }
        }
        proof {
            acc = acc;
        }
        s = s + 1;
    }
    total
}

/// Hands each functional digraph on `n` vertices to `emit` once, as its components in
/// nondecreasing order of size and, within a size, of their place in the walk over
/// components (`walk_seq`), and returns how many there are, `dg_count(n, 1, [[1]])`,
/// saturating at `u128::MAX`. The empty digraph is the one digraph on no vertices.
pub fn generate_digraphs<F: Fn(&Vec<Comp>)>(n: usize, emit: &F) -> (count: u128)
    requires
        n <= 255,
        forall|g: &Vec<Comp>| digraph_ok(n as int, g@) ==> emit.requires((g,)),
    ensures
        count == saturate(dg_count(n as nat, 1, seq![seq![1u8]])),
{
    generate_digraphs_by(n, RotationTest::Naive, emit)
}

/// `generate_digraphs` with the least-rotation test chosen by `test`.
pub fn generate_digraphs_by<F: Fn(&Vec<Comp>)>(n: usize, test: RotationTest, emit: &F) -> (count: u128)
    requires
        n <= 255,
        forall|g: &Vec<Comp>| digraph_ok(n as int, g@) ==> emit.requires((g,)),
    ensures
        count == saturate(dg_count(n as nat, 1, seq![seq![1u8]])),
{
    let mut prefix: Vec<Comp> = Vec::new();
    let first = cycle(1);
    proof {
        assert(codes(first@) =~= seq![seq![1u8]]);
    }
    extend(n, 1, &first, &mut prefix, emit, test, Ghost(n as int))
}

} // verus!
