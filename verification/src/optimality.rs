//! The code sizes of Figure K.1 are those of a Huffman code: no prefix code
//! of the same symbols, with codes of at most 256 bits, codes the
//! frequencies in fewer bits. This module holds no executable code.
use vstd::arithmetic::power2::*;
use vstd::prelude::*;

use crate::optimal::{
    active_count, huffman_sizes, is_least, k1_states, k1_step, kraft_cs, least, lemma_active_count,
    lemma_size_weight_step, lemma_total_nonneg, lemma_total_two, lemma_total_update, size_weight, total,
};

verus! {

/// Number of bits that code the first `n` symbols: each one's frequency
/// times its code size.
pub open spec fn cost(f: Seq<u32>, c: Seq<usize>, n: int) -> int
    decreases n,
{
    if n <= 0 {
        0
    } else {
        cost(f, c, n - 1) + f[n - 1] * c[n - 1]
    }
}

/// Code sizes of a prefix code of the symbols of non-zero frequency: a size
/// from 1 to 256 for exactly those symbols, and a Kraft sum of at most one.
pub open spec fn feasible(f: Seq<u32>, c: Seq<usize>) -> bool {
    &&& f.len() == 257
    &&& c.len() == 257
    &&& forall|s: int| 0 <= s < 257 ==> (#[trigger] c[s] > 0) == (f[s] > 0) && c[s] <= 256
    &&& kraft_cs(c, 257) <= pow2(256)
}

/// The term of symbol `a` among the first `n`, 0 past them.
spec fn term(f: Seq<u32>, c: Seq<usize>, a: int, n: int) -> int {
    if 0 <= a < n {
        f[a] * c[a]
    } else {
        0
    }
}

/// Costs are never negative.
proof fn lemma_cost_nonneg(f: Seq<u32>, c: Seq<usize>, n: int)
    ensures
        cost(f, c, n) >= 0,
    decreases n,
{
    if n > 0 {
        lemma_cost_nonneg(f, c, n - 1);
        assert(f[n - 1] * c[n - 1] >= 0) by (nonlinear_arith)
            requires
                f[n - 1] >= 0,
                c[n - 1] >= 0,
        ;
    }
}

/// Costs that agree on every symbol but `x` and `y` differ only by those
/// two symbols' terms.
proof fn lemma_cost_but_two(
    f: Seq<u32>,
    c: Seq<usize>,
    f2: Seq<u32>,
    c2: Seq<usize>,
    x: int,
    y: int,
    n: int,
)
    requires
        x != y,
        forall|s: int| 0 <= s < n && s != x && s != y ==> f[s] * c[s] == f2[s] * c2[s],
    ensures
        cost(f, c, n) - term(f, c, x, n) - term(f, c, y, n) == cost(f2, c2, n) - term(f2, c2, x, n) - term(
            f2,
            c2,
            y,
            n,
        ),
    decreases n,
{
    if n > 0 {
        lemma_cost_but_two(f, c, f2, c2, x, y, n - 1);
    }
}

/// Kraft sum after changing one code size.
proof fn lemma_kraft_update(c: Seq<usize>, a: int, v: usize, n: int)
    requires
        0 <= a < c.len(),
        0 <= n <= c.len(),
    ensures
        kraft_cs(c.update(a, v), n) == kraft_cs(c, n) + if a < n {
            (if v > 0 {
                size_weight(v as int)
            } else {
                0
            }) - (if c[a] > 0 {
                size_weight(c[a] as int)
            } else {
                0
            })
        } else {
            0
        },
    decreases n,
{
    if n > 0 {
        lemma_kraft_update(c, a, v, n - 1);
    }
}

/// The tree of least frequency among the first `n` other than `excl`, the
/// last such on ties; -1 where there is none.
spec fn least_upto(f: Seq<u32>, excl: int, n: int) -> int
    decreases n,
{
    if n <= 0 {
        -1
    } else {
        let b = least_upto(f, excl, n - 1);
        let j = n - 1;
        if j != excl && f[j] > 0 && (b == -1 || f[j] <= f[b]) {
            j
        } else {
            b
        }
    }
}

proof fn lemma_least_upto(f: Seq<u32>, excl: int, n: int)
    requires
        0 <= n <= f.len(),
    ensures
        ({
            let b = least_upto(f, excl, n);
            &&& (b == -1) == (forall|j: int| 0 <= j < n && j != excl ==> f[j] == 0)
            &&& b != -1 ==> 0 <= b < n && b != excl && f[b] > 0 && forall|j: int|
                0 <= j < n && j != excl && #[trigger] f[j] > 0 ==> f[b] < f[j] || (f[b] == f[j] && j <= b)
        }),
    decreases n,
{
    if n > 0 {
        lemma_least_upto(f, excl, n - 1);
    }
}

/// Where some tree other than `excl` has a non-zero frequency, the least
/// one exists.
proof fn lemma_least_exists(f: Seq<u32>, excl: int, j: int)
    requires
        f.len() == 257,
        0 <= j < 257,
        j != excl,
        f[j] > 0,
    ensures
        is_least(f, excl, least(f, excl)),
{
    lemma_least_upto(f, excl, 257);
    let b = least_upto(f, excl, 257);
    assert(is_least(f, excl, b));
}

/// A step of Figure K.1 on at least two trees: it merges the two least
/// ones, keeps the total and leaves one tree fewer.
proof fn lemma_step(st: (Seq<u32>, Seq<usize>, Seq<Seq<int>>))
    requires
        st.0.len() == 257,
        active_count(st.0, 257) >= 2,
        total(st.0, 257) <= u32::MAX,
    ensures
        ({
            let f = st.0;
            let v1 = least(f, -1);
            let v2 = least(f, v1);
            let f2 = k1_step(st).0;
            &&& is_least(f, -1, v1)
            &&& is_least(f, v1, v2)
            &&& f2.len() == 257
            &&& f2 == f.update(v1, (f[v1] + f[v2]) as u32).update(v2, 0)
            &&& f[v1] + f[v2] <= u32::MAX
            &&& f2[v1] == f[v1] + f[v2]
            &&& total(f2, 257) == total(f, 257)
            &&& active_count(f2, 257) == active_count(f, 257) - 1
        }),
{
    let f = st.0;
    lemma_total_nonneg(f, 257);
    let j0 = choose|j: int| 0 <= j < 257 && f[j] > 0;
    if !(exists|j: int| 0 <= j < 257 && f[j] > 0) {
        lemma_active_count(f, 257);
    }
    lemma_least_exists(f, -1, j0);
    let v1 = least(f, -1);
    if !(exists|j: int| 0 <= j < 257 && j != v1 && f[j] > 0) {
        lemma_active_count(f, 257);
        assert(active_count(f, 257) == 1);
    }
    let j1 = choose|j: int| 0 <= j < 257 && j != v1 && f[j] > 0;
    lemma_least_exists(f, v1, j1);
    let v2 = least(f, v1);
    lemma_total_two(f, v1, v2, 257);
    let sum = (f[v1] + f[v2]) as u32;
    let g = f.update(v1, sum);
    lemma_total_update(f, v1, sum, 257);
    lemma_total_update(g, v2, 0, 257);
}

/// After `j` steps of Figure K.1 on frequencies of `n` non-zero ones and
/// a total that fits 32 bits, `n - j` trees are left, of the same total.
proof fn lemma_states_count(f: Seq<u32>, j: nat)
    requires
        f.len() == 257,
        total(f, 257) <= u32::MAX,
        j < active_count(f, 257),
    ensures
        k1_states(f, j).0.len() == 257,
        total(k1_states(f, j).0, 257) == total(f, 257),
        active_count(k1_states(f, j).0, 257) == active_count(f, 257) - j,
    decreases j,
{
    if j > 0 {
        lemma_states_count(f, (j - 1) as nat);
        lemma_step(k1_states(f, (j - 1) as nat));
    }
}

/// A symbol is in two sequences one after the other exactly when it is in
/// one of them.
proof fn lemma_contains_concat(a: Seq<int>, b: Seq<int>, s: int)
    ensures
        (a + b).contains(s) <==> (a.contains(s) || b.contains(s)),
{
    if a.contains(s) {
        let k = choose|k: int| 0 <= k < a.len() && a[k] == s;
        assert((a + b)[k] == s);
    }
    if b.contains(s) {
        let k = choose|k: int| 0 <= k < b.len() && b[k] == s;
        assert((a + b)[a.len() + k] == s);
    }
    if (a + b).contains(s) {
        let k = choose|k: int| 0 <= k < (a + b).len() && (a + b)[k] == s;
        if k < a.len() {
            assert(a[k] == s);
        } else {
            assert(b[k - a.len()] == s);
        }
    }
}

/// The state `st` of Figure K.1 run on some frequencies, one step ahead of
/// the state `st2` of the run on the frequencies after that first step,
/// which merged `x` and `y`: the same trees and frequencies; `y` sits where
/// `x` does, one level deeper than `x` in the second run, and `x` one level
/// deeper than there; the second run never places `y`.
spec fn sim(
    st: (Seq<u32>, Seq<usize>, Seq<Seq<int>>),
    st2: (Seq<u32>, Seq<usize>, Seq<Seq<int>>),
    x: int,
    y: int,
) -> bool {
    &&& st.0 == st2.0
    &&& st.0.len() == 257
    &&& st.1.len() == 257
    &&& st2.1.len() == 257
    &&& st.2.len() == 257
    &&& st2.2.len() == 257
    &&& 0 <= x < 257
    &&& 0 <= y < 257
    &&& x != y
    &&& st.0[y] == 0
    &&& forall|s: int|
        0 <= s < 257 ==> #[trigger] st.1[s] + active_count(st.0, 257) <= 257 && st2.1[s] + active_count(
            st.0,
            257,
        ) <= 257
    &&& forall|s: int|
        0 <= s < 257 && s != y ==> #[trigger] st.1[s] == st2.1[s] + if s == x {
            1int
        } else {
            0
        }
    &&& st.1[y] == st2.1[x] + 1
    &&& st2.1[y] == 0
    &&& forall|r: int, s: int|
        #![trigger st.2[r].contains(s)]
        #![trigger st2.2[r].contains(s)]
        0 <= r < 257 && st.0[r] > 0 && s != y ==> (st.2[r].contains(s) <==> st2.2[r].contains(s))
    &&& forall|r: int|
        0 <= r < 257 && #[trigger] st.0[r] > 0 ==> (st.2[r].contains(y) <==> st2.2[r].contains(x))
            && !st2.2[r].contains(y)
}

/// Both runs take the same step and stay related.
proof fn lemma_sim_step(
    st: (Seq<u32>, Seq<usize>, Seq<Seq<int>>),
    st2: (Seq<u32>, Seq<usize>, Seq<Seq<int>>),
    x: int,
    y: int,
)
    requires
        sim(st, st2, x, y),
        active_count(st.0, 257) >= 2,
        total(st.0, 257) <= u32::MAX,
    ensures
        sim(k1_step(st), k1_step(st2), x, y),
{
    lemma_step(st);
    let f = st.0;
    let v1 = least(f, -1);
    let v2 = least(f, v1);
    let n = k1_step(st);
    let n2 = k1_step(st2);
    let m1 = st.2;
    let m2 = st2.2;
    assert(v1 != y && v2 != y);
    assert forall|s: int|
        0 <= s < 257 implies #[trigger] n.1[s] + active_count(n.0, 257) <= 257 && n2.1[s] + active_count(
            n.0,
            257,
        ) <= 257 by {
        assert(st.1[s] + active_count(f, 257) <= 257);
        assert(st2.1[s] + active_count(f, 257) <= 257);
    }
    assert forall|s: int| 0 <= s < 257 && s != y implies #[trigger] n.1[s] == n2.1[s] + if s == x {
        1int
    } else {
        0
    } by {
        assert(m1[v1].contains(s) <==> m2[v1].contains(s));
        assert(m1[v2].contains(s) <==> m2[v2].contains(s));
        assert(st.1[s] + active_count(f, 257) <= 257);
        assert(st2.1[s] + active_count(f, 257) <= 257);
    }
    assert(n.1[y] == n2.1[x] + 1) by {
        assert(m1[v1].contains(y) <==> m2[v1].contains(x));
        assert(m1[v2].contains(y) <==> m2[v2].contains(x));
        assert(st.1[y] + active_count(f, 257) <= 257);
        assert(st2.1[x] + active_count(f, 257) <= 257);
        assert(st.1[x] == st2.1[x] + 1);
    }
    assert(n2.1[y] == 0) by {
        assert(!m2[v1].contains(y));
        assert(!m2[v2].contains(y));
    }
    assert forall|r: int, s: int|
        #![trigger n.2[r].contains(s)]
        #![trigger n2.2[r].contains(s)]
        0 <= r < 257 && n.0[r] > 0 && s != y implies (n.2[r].contains(s) <==> n2.2[r].contains(s)) by {
        if r == v1 {
            lemma_contains_concat(m1[v1], m1[v2], s);
            lemma_contains_concat(m2[v1], m2[v2], s);
            assert(m1[v1].contains(s) <==> m2[v1].contains(s));
            assert(m1[v2].contains(s) <==> m2[v2].contains(s));
        } else {
            assert(r != v2);
            assert(f[r] > 0);
            assert(m1[r].contains(s) <==> m2[r].contains(s));
        }
    }
    assert forall|r: int| 0 <= r < 257 && #[trigger] n.0[r] > 0 implies (n.2[r].contains(y) <==> n2.2[r].contains(x))
        && !n2.2[r].contains(y) by {
        if r == v1 {
            lemma_contains_concat(m1[v1], m1[v2], y);
            lemma_contains_concat(m2[v1], m2[v2], x);
            lemma_contains_concat(m2[v1], m2[v2], y);
            assert(m1[v1].contains(y) <==> m2[v1].contains(x));
            assert(m1[v2].contains(y) <==> m2[v2].contains(x));
            assert(!m2[v1].contains(y) && !m2[v2].contains(y));
        } else {
            assert(r != v2);
            assert(f[r] > 0);
        }
    }
}

/// The first step of the run on `f` and the start of the run on the
/// frequencies it leaves are related.
proof fn lemma_sim_base(f: Seq<u32>)
    requires
        f.len() == 257,
        active_count(f, 257) >= 2,
        total(f, 257) <= u32::MAX,
    ensures
        sim(k1_states(f, 1), k1_states(k1_states(f, 1).0, 0), least(f, -1), least(f, least(f, -1))),
{
    let st0 = k1_states(f, 0);
    lemma_step(st0);
    let x = least(f, -1);
    let y = least(f, x);
    let st = k1_states(f, 1);
    assert(st == k1_step(st0));
    let g = st.0;
    let st2 = k1_states(g, 0);
    lemma_total_nonneg(f, 257);
    assert forall|s: int| 0 <= s < 257 implies #[trigger] st.1[s] + active_count(st.0, 257) <= 257 && st2.1[s]
        + active_count(st.0, 257) <= 257 by {
        assert(st0.2[x] == seq![x] && st0.2[y] == seq![y]);
        assert(seq![x].contains(s) ==> s == x);
        assert(seq![y].contains(s) ==> s == y);
    }
    assert forall|s: int| 0 <= s < 257 && s != y implies #[trigger] st.1[s] == st2.1[s] + if s == x {
        1int
    } else {
        0
    } by {
        assert(st0.2[x] == seq![x] && st0.2[y] == seq![y]);
        if s == x {
            assert(seq![x][0] == s);
        } else {
            assert(!seq![x].contains(s));
            assert(!seq![y].contains(s));
        }
    }
    assert(st.1[y] == st2.1[x] + 1) by {
        assert(st0.2[y] == seq![y]);
        assert(seq![y][0] == y);
    }
    assert forall|r: int, s: int|
        #![trigger st.2[r].contains(s)]
        #![trigger st2.2[r].contains(s)]
        0 <= r < 257 && st.0[r] > 0 && s != y implies (st.2[r].contains(s) <==> st2.2[r].contains(s)) by {
        if r == x {
            lemma_contains_concat(seq![x], seq![y], s);
            assert(seq![y].contains(s) ==> s == y);
        }
    }
    assert forall|r: int| 0 <= r < 257 && #[trigger] st.0[r] > 0 implies (st.2[r].contains(y) <==> st2.2[r].contains(
        x,
    )) && !st2.2[r].contains(y) by {
        assert(r != y);
        assert(st2.2[r] == seq![r]);
        if r == x {
            lemma_contains_concat(seq![x], seq![y], y);
            assert(seq![y][0] == y);
            assert(seq![x][0] == x);
        } else {
            assert(st.2[r] == seq![r]);
        }
        assert(seq![r].contains(y) ==> r == y);
        assert(seq![r].contains(x) ==> r == x);
    }
}

/// The run on `f`, one step ahead, stays related to the run on the
/// frequencies after its first step.
proof fn lemma_sim_run(f: Seq<u32>, j: nat)
    requires
        f.len() == 257,
        total(f, 257) <= u32::MAX,
        j + 2 <= active_count(f, 257),
    ensures
        sim(k1_states(f, j + 1), k1_states(k1_states(f, 1).0, j), least(f, -1), least(f, least(f, -1))),
    decreases j,
{
    if j == 0 {
        lemma_sim_base(f);
    } else {
        lemma_sim_run(f, (j - 1) as nat);
        lemma_states_count(f, j);
        lemma_sim_step(
            k1_states(f, j),
            k1_states(k1_states(f, 1).0, (j - 1) as nat),
            least(f, -1),
            least(f, least(f, -1)),
        );
    }
}

/// The Huffman code sizes of `f` are those of the frequencies after merging
/// its two least symbols `x` and `y`, with both one level below where `x`
/// was.
proof fn lemma_sizes_merge(f: Seq<u32>)
    requires
        f.len() == 257,
        active_count(f, 257) >= 2,
        total(f, 257) <= u32::MAX,
    ensures
        ({
            let x = least(f, -1);
            let y = least(f, x);
            let g = k1_states(f, 1).0;
            let hs = huffman_sizes(f);
            let hs2 = huffman_sizes(g);
            &&& is_least(f, -1, x)
            &&& is_least(f, x, y)
            &&& g == f.update(x, (f[x] + f[y]) as u32).update(y, 0)
            &&& g[x] == f[x] + f[y]
            &&& active_count(g, 257) == active_count(f, 257) - 1
            &&& total(g, 257) == total(f, 257)
            &&& hs.len() == 257
            &&& hs2.len() == 257
            &&& forall|s: int| 0 <= s < 257 && s != x && s != y ==> #[trigger] hs[s] == hs2[s]
            &&& hs[x] == hs2[x] + 1
            &&& hs[y] == hs2[x] + 1
            &&& hs2[y] == 0
        }),
{
    let st0 = k1_states(f, 0);
    lemma_step(st0);
    assert(k1_states(f, 1) == k1_step(st0));
    let n = active_count(f, 257);
    lemma_sim_run(f, (n - 2) as nat);
}

/// Where every symbol has a zero frequency or a zero size, the cost is 0.
proof fn lemma_cost_zero(f: Seq<u32>, c: Seq<usize>, n: int)
    requires
        forall|s: int| 0 <= s < n ==> f[s] == 0 || c[s] == 0,
    ensures
        cost(f, c, n) == 0,
    decreases n,
{
    if n > 0 {
        lemma_cost_zero(f, c, n - 1);
        assert(f[n - 1] * c[n - 1] == 0) by (nonlinear_arith)
            requires
                f[n - 1] == 0 || c[n - 1] == 0,
        ;
    }
}

/// Where every symbol of non-zero frequency has a code of at least one
/// bit, the cost is at least the total frequency.
proof fn lemma_cost_ge_total(f: Seq<u32>, c: Seq<usize>, n: int)
    requires
        forall|s: int| 0 <= s < n && #[trigger] f[s] > 0 ==> c[s] >= 1,
    ensures
        cost(f, c, n) >= total(f, n),
    decreases n,
{
    if n > 0 {
        lemma_cost_ge_total(f, c, n - 1);
        let a = f[n - 1];
        let b = c[n - 1];
        assert(a * b >= a) by (nonlinear_arith)
            requires
                a >= 0,
                b >= 0,
                a > 0 ==> b >= 1,
        ;
    }
}

/// The cost of the Huffman code sizes of `f` is that of the frequencies
/// after merging its two least symbols, plus their two frequencies.
proof fn lemma_cost_merge(f: Seq<u32>)
    requires
        f.len() == 257,
        active_count(f, 257) >= 2,
        total(f, 257) <= u32::MAX,
    ensures
        cost(f, huffman_sizes(f), 257) == cost(k1_states(f, 1).0, huffman_sizes(k1_states(f, 1).0), 257)
            + f[least(f, -1)] + f[least(f, least(f, -1))],
{
    lemma_sizes_merge(f);
    let x = least(f, -1);
    let y = least(f, x);
    let g = k1_states(f, 1).0;
    let hs = huffman_sizes(f);
    let hs2 = huffman_sizes(g);
    assert forall|s: int| 0 <= s < 257 && s != x && s != y implies f[s] * hs[s] == g[s] * hs2[s] by {
        assert(hs[s] == hs2[s]);
        assert(g[s] == f[s]);
    }
    lemma_cost_but_two(f, hs, g, hs2, x, y, 257);
    let fx = f[x] as int;
    let fy = f[y] as int;
    let h = hs2[x] as int;
    assert(fx * (h + 1) + fy * (h + 1) == (fx + fy) * h + fx + fy) by (nonlinear_arith);
    assert(g[y] * hs2[y] == 0);
}

/// The first index of the largest of the first `n` sizes.
spec fn argmax(c: Seq<usize>, n: int) -> int
    decreases n,
{
    if n <= 1 {
        0
    } else {
        let b = argmax(c, n - 1);
        if c[n - 1] > c[b] {
            n - 1
        } else {
            b
        }
    }
}

proof fn lemma_argmax(c: Seq<usize>, n: int)
    requires
        1 <= n <= c.len(),
    ensures
        0 <= argmax(c, n) < n,
        forall|s: int| 0 <= s < n ==> #[trigger] c[s] <= c[argmax(c, n)],
    decreases n,
{
    if n > 1 {
        lemma_argmax(c, n - 1);
    }
}

/// A Kraft sum is at least the weight of any one of its coded symbols.
proof fn lemma_kraft_term(c: Seq<usize>, t: int, n: int)
    requires
        0 <= t < n,
        c[t] > 0,
    ensures
        kraft_cs(c, n) >= size_weight(c[t] as int),
        size_weight(c[t] as int) > 0,
    decreases n,
{
    lemma_pow2_pos((256 - c[t]) as nat);
    lemma_kraft_nonneg(c, n - 1);
    if t < n - 1 {
        lemma_kraft_term(c, t, n - 1);
    }
}

/// Kraft sums are never negative.
proof fn lemma_kraft_nonneg(c: Seq<usize>, n: int)
    ensures
        kraft_cs(c, n) >= 0,
    decreases n,
{
    if n > 0 {
        lemma_kraft_nonneg(c, n - 1);
    }
}

/// The sizes `c` with those of `a` and `b` exchanged.
spec fn swap(c: Seq<usize>, a: int, b: int) -> Seq<usize> {
    c.update(a, c[b]).update(b, c[a])
}

/// Giving the longer of two codes to the less frequent symbol keeps a
/// prefix code and does not raise the cost.
proof fn lemma_swap(f: Seq<u32>, c: Seq<usize>, a: int, b: int)
    requires
        feasible(f, c),
        0 <= a < 257,
        0 <= b < 257,
        f[a] > 0,
        f[b] > 0,
        f[a] <= f[b],
        c[a] <= c[b],
    ensures
        feasible(f, swap(c, a, b)),
        cost(f, swap(c, a, b), 257) <= cost(f, c, 257),
        swap(c, a, b)[a] == c[b],
        swap(c, a, b)[b] == c[a],
        forall|s: int| 0 <= s < 257 && s != a && s != b ==> #[trigger] swap(c, a, b)[s] == c[s],
{
    let c2 = swap(c, a, b);
    if a == b {
        assert(c2 =~= c);
    } else {
        let c1 = c.update(a, c[b]);
        lemma_kraft_update(c, a, c[b], 257);
        lemma_kraft_update(c1, b, c[a], 257);
        assert(c[a] > 0 && c[b] > 0);
        lemma_cost_but_two(f, c, f, c2, a, b, 257);
        let fa = f[a] as int;
        let fb = f[b] as int;
        let ca = c[a] as int;
        let cb = c[b] as int;
        assert(fa * cb + fb * ca <= fa * ca + fb * cb) by (nonlinear_arith)
            requires
                fa <= fb,
                ca <= cb,
        ;
    }
}

/// Where every size is below `l`, the Kraft sum is a multiple of the weight
/// of size `l - 1`.
proof fn lemma_kraft_multiple(c: Seq<usize>, l: int, n: int) -> (q: int)
    requires
        1 <= l <= 256,
        0 <= n <= c.len(),
        forall|s: int| 0 <= s < n ==> #[trigger] c[s] < l,
    ensures
        q >= 0,
        kraft_cs(c, n) == q * pow2((257 - l) as nat),
    decreases n,
{
    if n == 0 {
        0
    } else {
        let q0 = lemma_kraft_multiple(c, l, n - 1);
        let p = pow2((257 - l) as nat);
        let cs = c[n - 1] as int;
        if cs > 0 {
            assert(cs < l);
            lemma_pow2_adds((257 - l) as nat, (l - 1 - cs) as nat);
            let k = pow2((l - 1 - cs) as nat) as int;
            assert(size_weight(cs) == p * k);
            assert(q0 * p + p * k == (q0 + k) * p) by (nonlinear_arith);
            q0 + k
        } else {
            q0
        }
    }
}

/// Where one symbol alone has the longest code, one bit shorter still
/// makes a prefix code, of lower cost.
proof fn lemma_reduce_lone(f: Seq<u32>, c: Seq<usize>, m: int)
    requires
        feasible(f, c),
        active_count(f, 257) >= 2,
        0 <= m < 257,
        forall|s: int| 0 <= s < 257 && s != m ==> #[trigger] c[s] < c[m],
    ensures
        c[m] >= 2,
        f[m] > 0,
        feasible(f, c.update(m, (c[m] - 1) as usize)),
        cost(f, c.update(m, (c[m] - 1) as usize), 257) == cost(f, c, 257) - f[m],
{
    let l = c[m] as int;
    let f0 = f.update(m, 0);
    lemma_total_update(f, m, 0, 257);
    lemma_active_count(f0, 257);
    let t = choose|t: int| 0 <= t < 257 && f0[t] > 0;
    assert(t != m && f[t] > 0 && c[t] >= 1);
    let c1 = c.update(m, (l - 1) as usize);
    let c0 = c.update(m, 0);
    assert forall|s: int| 0 <= s < 257 implies #[trigger] c0[s] < l by {
        if s != m {
            assert(c[s] < c[m]);
        }
    }
    let q = lemma_kraft_multiple(c0, l, 257);
    lemma_kraft_update(c, m, 0, 257);
    lemma_kraft_update(c, m, (l - 1) as usize, 257);
    lemma_size_weight_step(l - 1);
    let p = pow2((257 - l) as nat) as int;
    let w = size_weight(l);
    assert(size_weight(l - 1) == p);
    lemma_pow2_adds((257 - l) as nat, (l - 1) as nat);
    let big = pow2((l - 1) as nat) as int;
    assert(p * big == pow2(256));
    assert(kraft_cs(c, 257) == q * p + w);
    assert(q * p + w <= p * big);
    assert((q + 1) * p <= p * big) by (nonlinear_arith)
        requires
            q * p + w <= p * big,
            p == 2 * w,
            w >= 1,
    ;
    assert(q * p + p == (q + 1) * p) by (nonlinear_arith);
    assert(kraft_cs(c1, 257) == q * p + p);
    let other = if m == 0 {
        1int
    } else {
        0int
    };
    lemma_cost_but_two(f, c, f, c1, m, other, 257);
    let fm = f[m] as int;
    assert(fm * l == fm * (l - 1) + fm) by (nonlinear_arith);
}

/// Some prefix code of no higher cost than `c` has its longest size on two
/// symbols at least.
proof fn lemma_pair_at_max(f: Seq<u32>, c: Seq<usize>) -> (r: (Seq<usize>, int, int))
    requires
        feasible(f, c),
        active_count(f, 257) >= 2,
    ensures
        feasible(f, r.0),
        cost(f, r.0, 257) <= cost(f, c, 257),
        0 <= r.1 < 257,
        0 <= r.2 < 257,
        r.1 != r.2,
        r.0[r.1] == r.0[r.2],
        forall|s: int| 0 <= s < 257 ==> #[trigger] r.0[s] <= r.0[r.1],
    decreases cost(f, c, 257),
{
    lemma_argmax(c, 257);
    let m = argmax(c, 257);
    if exists|m2: int| 0 <= m2 < 257 && m2 != m && c[m2] == c[m] {
        let m2 = choose|m2: int| 0 <= m2 < 257 && m2 != m && c[m2] == c[m];
        (c, m, m2)
    } else {
        assert forall|s: int| 0 <= s < 257 && s != m implies #[trigger] c[s] < c[m] by {
            assert(c[s] <= c[m]);
        }
        lemma_reduce_lone(f, c, m);
        let c1 = c.update(m, (c[m] - 1) as usize);
        lemma_cost_nonneg(f, c1, 257);
        lemma_pair_at_max(f, c1)
    }
}

/// With three symbols or more, some prefix code of no higher cost than `c`
/// gives the two least frequent symbols `x` and `y` one same size of two
/// bits or more.
proof fn lemma_exchange(f: Seq<u32>, c: Seq<usize>) -> (c2: Seq<usize>)
    requires
        feasible(f, c),
        active_count(f, 257) >= 3,
        total(f, 257) <= u32::MAX,
    ensures
        feasible(f, c2),
        cost(f, c2, 257) <= cost(f, c, 257),
        c2[least(f, -1)] == c2[least(f, least(f, -1))],
        c2[least(f, -1)] >= 2,
{
    lemma_step(k1_states(f, 0));
    let x = least(f, -1);
    let y = least(f, x);
    let r = lemma_pair_at_max(f, c);
    let c1 = r.0;
    let m1 = r.1;
    let m2 = r.2;
    let l = c1[m1];
    assert(c1[x] >= 1 && c1[x] <= l);
    assert(f[m1] > 0 && f[m2] > 0);
    let mut c1b = c1;
    let mut p = m2;
    if x == m2 {
        p = m1;
    } else if x != m1 {
        assert(f[x] <= f[m1]);
        lemma_swap(f, c1, x, m1);
        c1b = swap(c1, x, m1);
        assert forall|s: int| 0 <= s < 257 implies #[trigger] c1b[s] <= l by {
            if s != x && s != m1 {
                assert(c1b[s] == c1[s]);
            }
        }
    }
    assert(c1b[x] == l && c1b[p] == l && p != x);
    assert(forall|s: int| 0 <= s < 257 ==> #[trigger] c1b[s] <= l);
    assert(f[p] > 0);
    assert(f[y] <= f[p]);
    assert(c1b[y] <= c1b[p]);
    lemma_swap(f, c1b, y, p);
    let c2 = swap(c1b, y, p);
    assert(c2[x] == l && c2[y] == l);
    assert forall|s: int| 0 <= s < 257 implies #[trigger] c2[s] <= l by {
        if s != y && s != p {
            assert(c2[s] == c1b[s]);
        }
    }
    if l < 2 {
        let f1 = f.update(x, 0);
        let f2 = f1.update(y, 0);
        lemma_total_update(f, x, 0, 257);
        lemma_total_update(f1, y, 0, 257);
        lemma_active_count(f2, 257);
        let t = choose|t: int| 0 <= t < 257 && f2[t] > 0;
        assert(t != x && t != y && f[t] > 0);
        assert(c2[t] == 1);
        let d1 = c2.update(x, 0);
        let d2 = d1.update(y, 0);
        lemma_kraft_update(c2, x, 0, 257);
        lemma_kraft_update(d1, y, 0, 257);
        lemma_size_weight_step(0);
        assert(size_weight(0) == pow2(256));
        assert(d2[t] == 1);
        lemma_kraft_term(d2, t, 257);
    }
    c2
}

/// A prefix code for `f` that gives `x` and `y` one same size becomes,
/// with `x` one bit shorter and `y` dropped, a prefix code for the
/// frequencies after merging them, cheaper by their two frequencies.
proof fn lemma_merge_code(f: Seq<u32>, c2: Seq<usize>) -> (c3: Seq<usize>)
    requires
        feasible(f, c2),
        active_count(f, 257) >= 2,
        total(f, 257) <= u32::MAX,
        c2[least(f, -1)] == c2[least(f, least(f, -1))],
        c2[least(f, -1)] >= 2,
    ensures
        feasible(k1_states(f, 1).0, c3),
        cost(k1_states(f, 1).0, c3, 257) == cost(f, c2, 257) - f[least(f, -1)] - f[least(f, least(f, -1))],
{
    lemma_sizes_merge(f);
    let x = least(f, -1);
    let y = least(f, x);
    let g = k1_states(f, 1).0;
    let l = c2[x] as int;
    let d1 = c2.update(x, (l - 1) as usize);
    let c3 = d1.update(y, 0);
    lemma_kraft_update(c2, x, (l - 1) as usize, 257);
    lemma_kraft_update(d1, y, 0, 257);
    lemma_size_weight_step(l - 1);
    assert forall|s: int| 0 <= s < 257 implies (#[trigger] c3[s] > 0) == (g[s] > 0) && c3[s] <= 256 by {
        if s != x && s != y {
            assert(c3[s] == c2[s] && g[s] == f[s]);
        }
    }
    assert forall|s: int| 0 <= s < 257 && s != x && s != y implies f[s] * c2[s] == g[s] * c3[s] by {
        assert(c3[s] == c2[s] && g[s] == f[s]);
    }
    lemma_cost_but_two(f, c2, g, c3, x, y, 257);
    let fx = f[x] as int;
    let fy = f[y] as int;
    assert(fx * l + fy * l == (fx + fy) * (l - 1) + fx + fy) by (nonlinear_arith);
    assert(g[y] * c3[y] == 0);
    c3
}

/// Figure K.1 builds a Huffman code: over the symbols of non-zero frequency,
/// no prefix code (code sizes from 1 to 256 bits of Kraft sum at most one)
/// codes the frequencies `f` in fewer bits than the code sizes of
/// `huffman_sizes`.
pub proof fn lemma_huffman_optimal(f: Seq<u32>, c: Seq<usize>)
    requires
        feasible(f, c),
        total(f, 257) <= u32::MAX,
    ensures
        cost(f, huffman_sizes(f), 257) <= cost(f, c, 257),
    decreases active_count(f, 257),
{
    lemma_total_nonneg(f, 257);
    lemma_cost_nonneg(f, c, 257);
    let a = active_count(f, 257);
    let hs = huffman_sizes(f);
    if a == 0 {
        lemma_active_count(f, 257);
        lemma_cost_zero(f, hs, 257);
    } else if a == 1 {
        assert(hs == Seq::new(257, |s: int| 0usize));
        lemma_cost_zero(f, hs, 257);
    } else {
        lemma_cost_merge(f);
        lemma_sizes_merge(f);
        let x = least(f, -1);
        let y = least(f, x);
        let g = k1_states(f, 1).0;
        if a == 2 {
            let hs2 = huffman_sizes(g);
            assert(hs2 == Seq::new(257, |s: int| 0usize));
            lemma_cost_zero(g, hs2, 257);
            lemma_cost_ge_total(f, c, 257);
            lemma_total_two(f, x, y, 257);
        } else {
            let c2 = lemma_exchange(f, c);
            let c3 = lemma_merge_code(f, c2);
            lemma_huffman_optimal(g, c3);
        }
    }
}

} // verus!
