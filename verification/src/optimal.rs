//! Huffman code lengths for given symbol frequencies (Annex K): code sizes
//! of a Huffman tree, the number of codes of each size, sizes limited to 16
//! bits, and the symbols ordered by code size.
use vstd::arithmetic::power2::*;
use vstd::prelude::*;

verus! {

/// Sum of the first `n` frequencies.
pub open spec fn total(f: Seq<u32>, n: int) -> int
    decreases n,
{
    if n <= 0 {
        0
    } else {
        total(f, n - 1) + f[n - 1]
    }
}

/// Number of non-zero frequencies among the first `n`.
pub open spec fn active_count(f: Seq<u32>, n: int) -> int
    decreases n,
{
    if n <= 0 {
        0
    } else {
        active_count(f, n - 1) + if f[n - 1] > 0 {
            1int
        } else {
            0
        }
    }
}

/// Kraft weight of a code size, in units of 2^-256.
pub open spec fn size_weight(size: int) -> int {
    pow2((256 - size) as nat) as int
}

/// Kraft weight of the symbols among the first `n` whose tree is `r`.
pub open spec fn tree_weight(cs: Seq<usize>, root: Seq<int>, r: int, n: int) -> int
    decreases n,
{
    if n <= 0 {
        0
    } else {
        tree_weight(cs, root, r, n - 1) + if root[n - 1] == r {
            size_weight(cs[n - 1] as int)
        } else {
            0
        }
    }
}

/// Kraft weight of the coded symbols (size above 0) among the first `n`.
pub open spec fn kraft_cs(cs: Seq<usize>, n: int) -> int
    decreases n,
{
    if n <= 0 {
        0
    } else {
        kraft_cs(cs, n - 1) + if cs[n - 1] > 0 {
            size_weight(cs[n - 1] as int)
        } else {
            0
        }
    }
}

/// Number of coded symbols (size above 0) among the first `n`.
pub open spec fn used_count(cs: Seq<usize>, n: int) -> int
    decreases n,
{
    if n <= 0 {
        0
    } else {
        used_count(cs, n - 1) + if cs[n - 1] > 0 {
            1int
        } else {
            0
        }
    }
}

/// Kraft weight of the codes counted by size, sizes below `n`.
pub open spec fn len_weight(bits: Seq<u16>, n: int) -> int
    decreases n,
{
    if n <= 0 {
        0
    } else {
        len_weight(bits, n - 1) + bits[n - 1] * size_weight(n - 1)
    }
}

/// Number of codes counted by size, sizes below `n`.
pub open spec fn len_count(bits: Seq<u16>, n: int) -> int
    decreases n,
{
    if n <= 0 {
        0
    } else {
        len_count(bits, n - 1) + bits[n - 1]
    }
}

pub proof fn lemma_total_update(f: Seq<u32>, i: int, x: u32, n: int)
    requires
        0 <= i < f.len(),
        0 <= n <= f.len(),
    ensures
        total(f.update(i, x), n) == total(f, n) + if i < n {
            x - f[i]
        } else {
            0
        },
        active_count(f.update(i, x), n) == active_count(f, n) + if i < n {
            (if x > 0 {
                1int
            } else {
                0
            }) - (if f[i] > 0 {
                1int
            } else {
                0
            })
        } else {
            0
        },
    decreases n,
{
    if n > 0 {
        lemma_total_update(f, i, x, n - 1);
    }
}

pub proof fn lemma_total_nonneg(f: Seq<u32>, n: int)
    ensures
        total(f, n) >= 0,
        active_count(f, n) >= 0,
        active_count(f, n) <= if n > 0 {
            n
        } else {
            0
        },
    decreases n,
{
    if n > 0 {
        lemma_total_nonneg(f, n - 1);
    }
}

/// One term of a sum is at most the sum.
pub proof fn lemma_total_term(f: Seq<u32>, i: int, n: int)
    requires
        0 <= i < n <= f.len(),
    ensures
        f[i] <= total(f, n),
    decreases n,
{
    lemma_total_nonneg(f, n - 1);
    if i < n - 1 {
        lemma_total_term(f, i, n - 1);
    }
}

/// Two distinct terms together are at most the sum.
pub proof fn lemma_total_two(f: Seq<u32>, i: int, j: int, n: int)
    requires
        0 <= i < n <= f.len(),
        0 <= j < n,
        i != j,
    ensures
        f[i] + f[j] <= total(f, n),
    decreases n,
{
    lemma_total_nonneg(f, n - 1);
    if i == n - 1 {
        lemma_total_term(f, j, n - 1);
    } else if j == n - 1 {
        lemma_total_term(f, i, n - 1);
    } else {
        lemma_total_two(f, i, j, n - 1);
    }
}

/// No non-zero frequency means a count of zero; exactly one, a count of one;
/// one or more, a count of at least one.
#[verifier::spinoff_prover]
#[verifier::rlimit(30)]
pub proof fn lemma_active_count(f: Seq<u32>, n: int)
    requires
        0 <= n <= f.len(),
    ensures
        (forall|i: int| 0 <= i < n ==> f[i] == 0) ==> active_count(f, n) == 0,
        forall|i: int| 0 <= i < n && f[i] > 0 ==> active_count(f, n) >= 1,
        forall|i: int|
            0 <= i < n && f[i] > 0 && (forall|j: int| 0 <= j < n && j != i ==> f[j] == 0) ==> active_count(f, n)
                == 1,
        forall|i: int, j: int|
            0 <= i < n && 0 <= j < n && i != j && f[i] > 0 && f[j] > 0 ==> active_count(f, n) >= 2,
    decreases n,
{
    if n > 0 {
        lemma_active_count(f, n - 1);
        lemma_total_nonneg(f, n - 1);
        assert forall|i: int|
            0 <= i < n && f[i] > 0 && (forall|j: int| 0 <= j < n && j != i ==> f[j] == 0) implies active_count(
            f,
            n,
        ) == 1 by {
            if i < n - 1 {
                assert(f[n - 1] == 0);
            } else {
                assert forall|j: int| 0 <= j < n - 1 implies f[j] == 0 by {
                    assert(j != i);
                }
            }
        }
        assert forall|i: int, j: int|
            0 <= i < n && 0 <= j < n && i != j && f[i] > 0 && f[j] > 0 implies active_count(f, n) >= 2 by {
            if i == n - 1 {
                assert(active_count(f, n - 1) >= 1);
            } else if j == n - 1 {
                assert(active_count(f, n - 1) >= 1);
            }
        }
    }
}

/// Two distinct non-zero frequencies make a count of at least two.
pub proof fn lemma_two_active(f: Seq<u32>, i: int, j: int, n: int)
    requires
        0 <= i < n <= f.len(),
        0 <= j < n,
        i != j,
        f[i] > 0,
        f[j] > 0,
    ensures
        active_count(f, n) >= 2,
    decreases n,
{
    lemma_total_nonneg(f, n - 1);
    if i == n - 1 {
        lemma_one_active(f, j, n - 1);
    } else if j == n - 1 {
        lemma_one_active(f, i, n - 1);
    } else {
        lemma_two_active(f, i, j, n - 1);
    }
}

/// A non-zero frequency makes a count of at least one.
pub proof fn lemma_one_active(f: Seq<u32>, i: int, n: int)
    requires
        0 <= i < n <= f.len(),
        f[i] > 0,
    ensures
        active_count(f, n) >= 1,
    decreases n,
{
    lemma_total_nonneg(f, n - 1);
    if i < n - 1 {
        lemma_one_active(f, i, n - 1);
    }
}

/// The weight of a code size below 256 is twice that of the next size.
pub proof fn lemma_size_weight_step(size: int)
    requires
        0 <= size < 256,
    ensures
        size_weight(size) == 2 * size_weight(size + 1),
        size_weight(size + 1) >= 1,
{
    lemma_pow2_unfold((256 - size) as nat);
    lemma_pow2_pos((256 - size - 1) as nat);
}

/// Merging tree `r2` into tree `r1`, every symbol of both one level deeper:
/// the weight of the merged tree is the mean of the two weights, the other
/// trees keep theirs.
pub proof fn lemma_tree_merge(
    cs: Seq<usize>,
    root: Seq<int>,
    cs2: Seq<usize>,
    root2: Seq<int>,
    r1: int,
    r2: int,
    n: int,
)
    requires
        0 <= n <= cs.len(),
        n <= root.len(),
        n <= cs2.len(),
        n <= root2.len(),
        r1 != r2,
        forall|s: int|
            0 <= s < n ==> if root[s] == r1 || root[s] == r2 {
                root2[s] == r1 && cs2[s] == cs[s] + 1 && cs[s] < 256
            } else {
                root2[s] == root[s] && cs2[s] == cs[s]
            },
    ensures
        2 * tree_weight(cs2, root2, r1, n) == tree_weight(cs, root, r1, n) + tree_weight(cs, root, r2, n),
        forall|r: int| r != r1 && r != r2 ==> #[trigger] tree_weight(cs2, root2, r, n) == tree_weight(cs, root, r, n),
    decreases n,
{
    if n > 0 {
        lemma_tree_merge(cs, root, cs2, root2, r1, r2, n - 1);
        let s = n - 1;
        if root[s] == r1 || root[s] == r2 {
            lemma_size_weight_step(cs[s] as int);
        }
        assert forall|r: int| r != r1 && r != r2 implies #[trigger] tree_weight(cs2, root2, r, n) == tree_weight(
            cs,
            root,
            r,
            n,
        ) by {
            assert(tree_weight(cs2, root2, r, n - 1) == tree_weight(cs, root, r, n - 1));
        }
    }
}

/// Where the symbols of tree `r` are exactly the coded ones, the tree's
/// weight is the Kraft weight of the coded symbols.
pub proof fn lemma_tree_is_kraft(cs: Seq<usize>, root: Seq<int>, r: int, n: int)
    requires
        0 <= n <= cs.len(),
        n <= root.len(),
        forall|s: int| 0 <= s < n ==> (root[s] == r) == (cs[s] > 0),
    ensures
        tree_weight(cs, root, r, n) == kraft_cs(cs, n),
    decreases n,
{
    if n > 0 {
        lemma_tree_is_kraft(cs, root, r, n - 1);
    }
}

/// The weight of a tree only depends on the sizes and trees of its symbols.
pub proof fn lemma_tree_weight_ext(cs: Seq<usize>, root: Seq<int>, cs2: Seq<usize>, root2: Seq<int>, r: int, n: int)
    requires
        0 <= n <= cs.len(),
        n <= root.len(),
        n <= cs2.len(),
        n <= root2.len(),
        forall|s: int| 0 <= s < n ==> (root[s] == r) == (root2[s] == r),
        forall|s: int| 0 <= s < n && root[s] == r ==> cs[s] == cs2[s],
    ensures
        tree_weight(cs, root, r, n) == tree_weight(cs2, root2, r, n),
    decreases n,
{
    if n > 0 {
        lemma_tree_weight_ext(cs, root, cs2, root2, r, n - 1);
    }
}

/// A tree of the single symbol `r` with size 0 weighs 2^256.
pub proof fn lemma_tree_single(cs: Seq<usize>, root: Seq<int>, r: int, n: int)
    requires
        0 <= r < n <= cs.len(),
        n <= root.len(),
        forall|s: int| 0 <= s < n ==> (root[s] == r) == (s == r),
        cs[r] == 0,
    ensures
        tree_weight(cs, root, r, n) == pow2(256),
    decreases n,
{
    if n - 1 > r {
        lemma_tree_single(cs, root, r, n - 1);
    } else {
        assert forall|s: int| 0 <= s < n - 1 implies root[s] != r by {}
        lemma_tree_none(cs, root, r, n - 1);
    }
}

/// A tree without symbols weighs nothing.
pub proof fn lemma_tree_none(cs: Seq<usize>, root: Seq<int>, r: int, n: int)
    requires
        0 <= n <= cs.len(),
        n <= root.len(),
        forall|s: int| 0 <= s < n ==> root[s] != r,
    ensures
        tree_weight(cs, root, r, n) == 0,
    decreases n,
{
    if n > 0 {
        lemma_tree_none(cs, root, r, n - 1);
    }
}


/// `v` is the tree of least frequency other than `excl`, the last such on
/// ties (Figure K.1: V1 is the largest index of least frequency).
pub open spec fn is_least(f: Seq<u32>, excl: int, v: int) -> bool {
    &&& 0 <= v < 257
    &&& v != excl
    &&& f[v] > 0
    &&& forall|j: int| 0 <= j < 257 && j != excl && #[trigger] f[j] > 0 ==> f[v] < f[j] || (f[v] == f[j] && j <= v)
}

/// The tree of least frequency other than `excl`.
pub open spec fn least(f: Seq<u32>, excl: int) -> int {
    choose|v: int| is_least(f, excl, v)
}

/// One tree is the least.
proof fn lemma_least_unique(f: Seq<u32>, excl: int, a: int, b: int)
    requires
        is_least(f, excl, a),
        is_least(f, excl, b),
    ensures
        a == b,
{
    assert(f[a] > 0 && f[b] > 0);
    assert(f[a] < f[b] || (f[a] == f[b] && b <= a));
    assert(f[b] < f[a] || (f[b] == f[a] && a <= b));
}

/// A step of Figure K.1 on the frequencies of the trees, the code sizes and
/// the symbols of each tree: the two trees of least frequency become one,
/// every symbol of both one level deeper.
pub open spec fn k1_step(st: (Seq<u32>, Seq<usize>, Seq<Seq<int>>)) -> (Seq<u32>, Seq<usize>, Seq<Seq<int>>) {
    let (f, cs, members) = st;
    let v1 = least(f, -1);
    let v2 = least(f, v1);
    (
        f.update(v1, (f[v1] + f[v2]) as u32).update(v2, 0),
        Seq::new(
            257,
            |s: int|
                (cs[s] + if members[v1].contains(s) || members[v2].contains(s) {
                    1int
                } else {
                    0
                }) as usize,
        ),
        members.update(v1, members[v1] + members[v2]),
    )
}

/// The state of Figure K.1 after `n` steps from the frequencies `freq`:
/// every symbol its own tree, of size 0.
pub open spec fn k1_states(freq: Seq<u32>, n: nat) -> (Seq<u32>, Seq<usize>, Seq<Seq<int>>)
    decreases n,
{
    if n == 0 {
        (freq, Seq::new(257, |s: int| 0usize), Seq::new(257, |s: int| seq![s]))
    } else {
        k1_step(k1_states(freq, (n - 1) as nat))
    }
}

/// The code sizes of Figure K.1: the steps go on until one tree is left,
/// one step fewer than there are symbols of non-zero frequency.
pub open spec fn huffman_sizes(freq: Seq<u32>) -> Seq<usize> {
    k1_states(freq, (active_count(freq, 257) - 1) as nat).1
}

/// The code lengths of the table built for the frequencies (Annex K.2):
/// Huffman code sizes, counted by size and limited to 16 bits.
pub open spec fn optimized_lengths(freq: Seq<u32>) -> Seq<u8> {
    k3_lengths(count_bits(huffman_sizes(freq)))
}

/// The values of the table built for the frequencies (Annex K.2): the
/// coded symbols by Huffman code size, then by value.
pub open spec fn optimized_values(freq: Seq<u32>) -> Seq<u8> {
    k4_values(huffman_sizes(freq))
}

/// State of the tree building of Figure K.1: each symbol of non-zero initial
/// frequency belongs to the tree of a root (the one symbol of the tree whose
/// frequency is still non-zero, the tree's total frequency); `others` chains
/// the symbols of each tree starting at its root, `lists` records those
/// chains; every tree has Kraft weight 2^256 in the code sizes `cs`.
pub open spec fn k1_inv(
    init: Seq<u32>,
    freq: Seq<u32>,
    others: Seq<i32>,
    cs: Seq<usize>,
    root: Seq<int>,
    lists: Seq<Seq<int>>,
    merges: int,
) -> bool {
    &&& init.len() == 257
    &&& freq.len() == 257
    &&& others.len() == 257
    &&& cs.len() == 257
    &&& root.len() == 257
    &&& lists.len() == 257
    &&& total(freq, 257) == total(init, 257)
    &&& active_count(freq, 257) + merges == active_count(init, 257)
    &&& 0 <= merges
    &&& forall|s: int|
        #![trigger root[s]]
        #![trigger cs[s]]
        0 <= s < 257 ==> {
            &&& (root[s] == -1) == (init[s] == 0)
            &&& (freq[s] > 0 ==> root[s] == s)
            &&& (root[s] != -1 ==> 0 <= root[s] < 257 && freq[root[s]] > 0 && lists[root[s]].contains(s))
            &&& cs[s] <= merges
            &&& (root[s] == -1 ==> cs[s] == 0)
        }
    &&& forall|r: int| 0 <= r < 257 && #[trigger] freq[r] > 0 ==> tree_ok(others, cs, root, lists[r], r)
}

/// The chain `l` of the tree of root `r`: it starts at `r`, holds each
/// symbol of the tree once, follows `others` and ends where `others` is -1;
/// the tree weighs 2^256; a tree of more than its root has only coded
/// symbols.
#[verifier::opaque]
pub open spec fn tree_ok(others: Seq<i32>, cs: Seq<usize>, root: Seq<int>, l: Seq<int>, r: int) -> bool {
    &&& l.len() >= 1
    &&& l[0] == r
    &&& l.no_duplicates()
    &&& forall|k: int| 0 <= k < l.len() ==> 0 <= #[trigger] l[k] < 257 && root[l[k]] == r
    &&& forall|k: int| 0 <= k < l.len() - 1 ==> others[#[trigger] l[k]] == l[k + 1]
    &&& others[l.last()] == -1
    &&& tree_weight(cs, root, r, 257) == pow2(256)
    &&& ((l.len() == 1 && cs[r] == 0) || (forall|k: int| 0 <= k < l.len() ==> cs[#[trigger] l[k]] >= 1))
}

/// Walk the chain of a tree from its root, each symbol one level deeper.
/// Returns the last symbol of the chain.
fn deepen(others: &[i32; 257], cs: &mut [usize; 257], start: usize, Ghost(l): Ghost<Seq<int>>) -> (r: usize)
    requires
        l.len() >= 1,
        l[0] == start,
        l.no_duplicates(),
        forall|k: int| 0 <= k < l.len() ==> 0 <= #[trigger] l[k] < 257,
        forall|k: int| 0 <= k < l.len() - 1 ==> others@[#[trigger] l[k]] == l[k + 1],
        others@[l.last()] == -1,
        forall|s: int| 0 <= s < 257 ==> #[trigger] old(cs)@[s] <= 256,
    ensures
        r == l.last(),
        forall|s: int|
            0 <= s < 257 ==> #[trigger] final(cs)@[s] == old(cs)@[s] + if l.contains(s) {
                1int
            } else {
                0
            },
{
    let ghost cs0 = cs@;
    let mut v = start;
    cs[v] = cs[v] + 1;
    let ghost mut p: int = 0;
    proof {
        assert forall|s: int| 0 <= s < 257 implies #[trigger] cs@[s] == cs0[s] + if l.take(p + 1).contains(s) {
            1int
        } else {
            0
        } by {
            if l.take(1).contains(s) {
                assert(l.take(1)[0] == l[0]);
            }
            if s == start {
                assert(l.take(1)[0] == s);
            }
        }
    }
    while others[v] >= 0
        invariant
            0 <= p < l.len(),
            v == l[p],
            l.no_duplicates(),
            forall|k: int| 0 <= k < l.len() ==> 0 <= #[trigger] l[k] < 257,
            forall|k: int| 0 <= k < l.len() - 1 ==> others@[#[trigger] l[k]] == l[k + 1],
            others@[l.last()] == -1,
            cs0.len() == 257,
            forall|s: int| 0 <= s < 257 ==> #[trigger] cs0[s] <= 256,
            forall|s: int|
                0 <= s < 257 ==> #[trigger] cs@[s] == cs0[s] + if l.take(p + 1).contains(s) {
                    1int
                } else {
                    0
                },
        decreases l.len() - p,
    {
        proof {
            if p == l.len() - 1 {
                assert(false);
            }
        }
        let next = others[v] as usize;
        assert(next == l[p + 1]);
        proof {
            assert(!l.take(p + 1).contains(l[p + 1])) by {
                if l.take(p + 1).contains(l[p + 1]) {
                    let k = choose|k: int| 0 <= k < p + 1 && #[trigger] l.take(p + 1)[k] == l[p + 1];
                    assert(l[k] == l[p + 1]);
                }
            }
        }
        let ghost prev = cs@;
        let ghost old_take = l.take(p + 1);
        v = next;
        cs[v] = cs[v] + 1;
        proof {
            p = p + 1;
            assert(l.take(p + 1) =~= old_take.push(l[p]));
            assert forall|s: int| 0 <= s < 257 implies #[trigger] cs@[s] == cs0[s] + if l.take(p + 1).contains(s) {
                1int
            } else {
                0
            } by {
                assert(prev[s] == cs0[s] + if old_take.contains(s) {
                    1int
                } else {
                    0
                });
                if s != v {
                    assert(cs@[s] == prev[s]);
                    assert(l.take(p + 1).contains(s) == old_take.contains(s)) by {
                        if old_take.contains(s) {
                            let k = choose|k: int| 0 <= k < old_take.len() && #[trigger] old_take[k] == s;
                            assert(l.take(p + 1)[k] == s);
                        }
                    }
                } else {
                    assert(l.take(p + 1)[p] == s);
                }
            }
        }
    }
    proof {
        if p < l.len() - 1 {
            assert(others@[l[p]] == l[p + 1]);
        }
        assert(l.take(p + 1) =~= l);
    }
    v
}


/// The chain of an active tree holds exactly the symbols of the tree.
proof fn lemma_list_members(
    init: Seq<u32>,
    freq: Seq<u32>,
    others: Seq<i32>,
    cs: Seq<usize>,
    root: Seq<int>,
    lists: Seq<Seq<int>>,
    merges: int,
    r: int,
)
    requires
        k1_inv(init, freq, others, cs, root, lists, merges),
        0 <= r < 257,
        freq[r] > 0,
    ensures
        forall|s: int| 0 <= s < 257 ==> (lists[r].contains(s) <==> #[trigger] root[s] == r),
        forall|s: int| lists[r].contains(s) ==> 0 <= s < 257,
        lists[r].len() >= 1,
        lists[r][0] == r,
        0 <= lists[r].last() < 257,
        root[lists[r].last()] == r,
{
    assert(tree_ok(others, cs, root, lists[r], r));
    reveal(tree_ok);
    assert forall|s: int| 0 <= s < 257 implies (lists[r].contains(s) <==> #[trigger] root[s] == r) by {
        if lists[r].contains(s) {
            let k = choose|k: int| 0 <= k < lists[r].len() && #[trigger] lists[r][k] == s;
            assert(root[lists[r][k]] == r);
        }
    }
    assert forall|s: int| lists[r].contains(s) implies 0 <= s < 257 by {
        let k = choose|k: int| 0 <= k < lists[r].len() && #[trigger] lists[r][k] == s;
    }
    assert(lists[r].contains(lists[r].last()));
}

/// The chain of two merged trees: the first chain, then the second.
proof fn lemma_merged_chain(others: Seq<i32>, others2: Seq<i32>, l1: Seq<int>, l2: Seq<int>, r2: int)
    requires
        others.len() == 257,
        l1.len() >= 1,
        l2.len() >= 1,
        l2[0] == r2,
        l1.no_duplicates(),
        l2.no_duplicates(),
        forall|s: int| l1.contains(s) ==> !l2.contains(s),
        forall|k: int| 0 <= k < l1.len() ==> 0 <= #[trigger] l1[k] < 257,
        forall|k: int| 0 <= k < l2.len() ==> 0 <= #[trigger] l2[k] < 257,
        forall|k: int| 0 <= k < l1.len() - 1 ==> others[#[trigger] l1[k]] == l1[k + 1],
        forall|k: int| 0 <= k < l2.len() - 1 ==> others[#[trigger] l2[k]] == l2[k + 1],
        others[l2.last()] == -1,
        others2 == others.update(l1.last(), r2 as i32),
        0 <= r2 < 257,
    ensures
        ({
            let l = l1 + l2;
            &&& l.len() >= 1
            &&& l[0] == l1[0]
            &&& l.no_duplicates()
            &&& forall|k: int| 0 <= k < l.len() - 1 ==> others2[#[trigger] l[k]] == l[k + 1]
            &&& others2[l.last()] == -1
        }),
{
    let l = l1 + l2;
    let t = l1.last();
    assert(l1.contains(t));
    assert forall|i: int, j: int| 0 <= i < l.len() && 0 <= j < l.len() && i != j implies l[i] != l[j] by {
        if i < l1.len() && j < l1.len() {
        } else if i >= l1.len() && j >= l1.len() {
            assert(l[i] == l2[i - l1.len()] && l[j] == l2[j - l1.len()]);
        } else if i < l1.len() {
            assert(l1.contains(l[i]));
            assert(l2.contains(l[j])) by {
                assert(l2[j - l1.len()] == l[j]);
            }
        } else {
            assert(l1.contains(l[j]));
            assert(l2.contains(l[i])) by {
                assert(l2[i - l1.len()] == l[i]);
            }
        }
    }
    assert forall|k: int| 0 <= k < l.len() - 1 implies others2[#[trigger] l[k]] == l[k + 1] by {
        if k < l1.len() - 1 {
            assert(l1[k] != t) by {
                assert(l1[l1.len() - 1] == t);
            }
            assert(others2[l1[k]] == others[l1[k]]);
        } else if k == l1.len() - 1 {
            assert(l[k + 1] == l2[0]);
        } else {
            let k2 = k - l1.len();
            assert(l[k] == l2[k2]);
            assert(l[k + 1] == l2[k2 + 1]);
            assert(l2.contains(l2[k2]));
            assert(l2[k2] != t);
            assert(others2[l2[k2]] == others[l2[k2]]);
        }
    }
    assert(l.last() == l2.last());
    assert(l2.contains(l2.last()));
    assert(l2.last() != t);
}



/// The trees after tree `r2` joined tree `r1`.
pub open spec fn merged_root(root: Seq<int>, r1: int, r2: int) -> Seq<int> {
    Seq::new(257, |s: int| if root[s] == r2 { r1 } else { root[s] })
}

/// What a merge step starts from and what it changes.
pub open spec fn merge_step(
    init: Seq<u32>,
    freq: Seq<u32>,
    others: Seq<i32>,
    cs: Seq<usize>,
    root: Seq<int>,
    lists: Seq<Seq<int>>,
    merges: int,
    r1: int,
    r2: int,
    freq2: Seq<u32>,
    others2: Seq<i32>,
    cs2: Seq<usize>,
) -> bool {
    &&& k1_inv(init, freq, others, cs, root, lists, merges)
    &&& 0 <= r1 < 257
    &&& 0 <= r2 < 257
    &&& r1 != r2
    &&& freq[r1] > 0
    &&& freq[r2] > 0
    &&& freq[r1] + freq[r2] <= u32::MAX
    &&& freq2 == freq.update(r1, (freq[r1] + freq[r2]) as u32).update(r2, 0)
    &&& others2 == others.update(lists[r1].last(), r2 as i32)
    &&& cs2.len() == 257
    &&& forall|s: int|
        0 <= s < 257 ==> #[trigger] cs2[s] == cs[s] + if lists[r1].contains(s) || lists[r2].contains(s) {
            1int
        } else {
            0
        }
}

/// Facts of a merge step: the bound on sizes before it and the counts after
/// it.
#[verifier::spinoff_prover]
proof fn lemma_merge_counts(
    init: Seq<u32>,
    freq: Seq<u32>,
    others: Seq<i32>,
    cs: Seq<usize>,
    root: Seq<int>,
    lists: Seq<Seq<int>>,
    merges: int,
    r1: int,
    r2: int,
    freq2: Seq<u32>,
    others2: Seq<i32>,
    cs2: Seq<usize>,
)
    requires
        merge_step(init, freq, others, cs, root, lists, merges, r1, r2, freq2, others2, cs2),
    ensures
        merges <= 255,
        forall|s: int| 0 <= s < 257 ==> #[trigger] cs[s] <= merges,
        total(freq2, 257) == total(init, 257),
        active_count(freq2, 257) + merges + 1 == active_count(init, 257),
{
    lemma_two_active(freq, r1, r2, 257);
    lemma_total_nonneg(init, 257);
    assert(k1_inv(init, freq, others, cs, root, lists, merges));
    assert forall|s: int| 0 <= s < 257 implies #[trigger] cs[s] <= merges by {
        assert(root[s] == root[s]);
    }
    let f1 = freq.update(r1, (freq[r1] + freq[r2]) as u32);
    lemma_total_update(freq, r1, (freq[r1] + freq[r2]) as u32, 257);
    lemma_total_update(f1, r2, 0, 257);
}

/// Facts of a merge step: each symbol's new tree and size.
#[verifier::spinoff_prover]
proof fn lemma_merge_basics(
    init: Seq<u32>,
    freq: Seq<u32>,
    others: Seq<i32>,
    cs: Seq<usize>,
    root: Seq<int>,
    lists: Seq<Seq<int>>,
    merges: int,
    r1: int,
    r2: int,
    freq2: Seq<u32>,
    others2: Seq<i32>,
    cs2: Seq<usize>,
)
    requires
        merge_step(init, freq, others, cs, root, lists, merges, r1, r2, freq2, others2, cs2),
    ensures
        merges <= 255,
        forall|s: int| 0 <= s < 257 ==> #[trigger] cs[s] <= merges,
        forall|s: int|
            0 <= s < 257 ==> if root[s] == r1 || root[s] == r2 {
                merged_root(root, r1, r2)[s] == r1 && #[trigger] cs2[s] == cs[s] + 1 && cs[s] < 256
            } else {
                merged_root(root, r1, r2)[s] == root[s] && cs2[s] == cs[s]
            },
        total(freq2, 257) == total(init, 257),
        active_count(freq2, 257) + merges + 1 == active_count(init, 257),
        forall|s: int| 0 <= s < 257 ==> (lists[r1].contains(s) <==> #[trigger] root[s] == r1),
        forall|s: int| 0 <= s < 257 ==> (lists[r2].contains(s) <==> #[trigger] root[s] == r2),
        forall|s: int| lists[r1].contains(s) ==> 0 <= s < 257,
        forall|s: int| lists[r2].contains(s) ==> 0 <= s < 257,
{
    lemma_merge_counts(init, freq, others, cs, root, lists, merges, r1, r2, freq2, others2, cs2);
    lemma_list_members(init, freq, others, cs, root, lists, merges, r1);
    lemma_list_members(init, freq, others, cs, root, lists, merges, r2);
}

/// After a merge step the merged tree is consistent.
#[verifier::spinoff_prover]
proof fn lemma_merge_joined(
    init: Seq<u32>,
    freq: Seq<u32>,
    others: Seq<i32>,
    cs: Seq<usize>,
    root: Seq<int>,
    lists: Seq<Seq<int>>,
    merges: int,
    r1: int,
    r2: int,
    freq2: Seq<u32>,
    others2: Seq<i32>,
    cs2: Seq<usize>,
)
    requires
        merge_step(init, freq, others, cs, root, lists, merges, r1, r2, freq2, others2, cs2),
    ensures
        tree_ok(others2, cs2, merged_root(root, r1, r2), lists[r1] + lists[r2], r1),
        forall|r: int|
            r != r1 && r != r2 ==> #[trigger] tree_weight(cs2, merged_root(root, r1, r2), r, 257) == tree_weight(
                cs,
                root,
                r,
                257,
            ),
{
    let root2 = merged_root(root, r1, r2);
    let l1 = lists[r1];
    let l2 = lists[r2];
    lemma_merge_basics(init, freq, others, cs, root, lists, merges, r1, r2, freq2, others2, cs2);
    lemma_tree_merge(cs, root, cs2, root2, r1, r2, 257);
    assert(tree_ok(others, cs, root, l1, r1));
    assert(tree_ok(others, cs, root, l2, r2));
    reveal(tree_ok);
    assert forall|s: int| l1.contains(s) implies !l2.contains(s) by {
        assert(root[s] == r1);
    }
    lemma_merged_chain(others, others2, l1, l2, r2);
    let l = l1 + l2;
    assert forall|k: int| 0 <= k < l.len() implies 0 <= #[trigger] l[k] < 257 && root2[l[k]] == r1 && cs2[l[k]]
        >= 1 by {
        if k < l1.len() {
            assert(l1.contains(l1[k]));
        } else {
            assert(l[k] == l2[k - l1.len()]);
            assert(l2.contains(l2[k - l1.len()]));
        }
    }
}

/// After a merge step every other tree is consistent.
#[verifier::spinoff_prover]
proof fn lemma_merge_other(
    init: Seq<u32>,
    freq: Seq<u32>,
    others: Seq<i32>,
    cs: Seq<usize>,
    root: Seq<int>,
    lists: Seq<Seq<int>>,
    merges: int,
    r1: int,
    r2: int,
    freq2: Seq<u32>,
    others2: Seq<i32>,
    cs2: Seq<usize>,
    r: int,
)
    requires
        merge_step(init, freq, others, cs, root, lists, merges, r1, r2, freq2, others2, cs2),
        0 <= r < 257,
        r != r1,
        r != r2,
        freq[r] > 0,
    ensures
        tree_ok(others2, cs2, merged_root(root, r1, r2), lists[r], r),
{
    let root2 = merged_root(root, r1, r2);
    let l1 = lists[r1];
    let lr = lists[r];
    lemma_merge_basics(init, freq, others, cs, root, lists, merges, r1, r2, freq2, others2, cs2);
    lemma_merge_joined(init, freq, others, cs, root, lists, merges, r1, r2, freq2, others2, cs2);
    assert(tree_ok(others, cs, root, lr, r));
    assert(tree_ok(others, cs, root, l1, r1));
    lemma_list_members(init, freq, others, cs, root, lists, merges, r);
    reveal(tree_ok);
    assert(l1.contains(l1.last()));
    assert forall|k: int| 0 <= k < lr.len() implies 0 <= #[trigger] lr[k] < 257 && root2[lr[k]] == r by {
        assert(root[lr[k]] == r);
    }
    assert forall|k: int| 0 <= k < lr.len() - 1 implies others2[#[trigger] lr[k]] == lr[k + 1] by {
        assert(lr.contains(lr[k]));
        assert(root[lr[k]] == r);
    }
    assert(lr.contains(lr.last()));
    assert(tree_weight(cs2, root2, r, 257) == tree_weight(cs, root, r, 257));
    if !(lr.len() == 1 && cs[r] == 0) {
        assert forall|k: int| 0 <= k < lr.len() implies cs2[#[trigger] lr[k]] >= 1 by {
            assert(cs[lr[k]] >= 1);
            assert(lr.contains(lr[k]));
            assert(root[lr[k]] == r);
        }
    } else {
        assert(lr.contains(r)) by {
            assert(lr[0] == r);
        }
        assert(root[r] == r);
    }
}

/// After a merge step every active tree is consistent.
#[verifier::spinoff_prover]
proof fn lemma_merge_trees(
    init: Seq<u32>,
    freq: Seq<u32>,
    others: Seq<i32>,
    cs: Seq<usize>,
    root: Seq<int>,
    lists: Seq<Seq<int>>,
    merges: int,
    r1: int,
    r2: int,
    freq2: Seq<u32>,
    others2: Seq<i32>,
    cs2: Seq<usize>,
)
    requires
        merge_step(init, freq, others, cs, root, lists, merges, r1, r2, freq2, others2, cs2),
    ensures
        forall|r: int|
            0 <= r < 257 && #[trigger] freq2[r] > 0 ==> tree_ok(
                others2,
                cs2,
                merged_root(root, r1, r2),
                lists.update(r1, lists[r1] + lists[r2])[r],
                r,
            ),
{
    lemma_merge_joined(init, freq, others, cs, root, lists, merges, r1, r2, freq2, others2, cs2);
    assert forall|r: int| 0 <= r < 257 && #[trigger] freq2[r] > 0 implies tree_ok(
        others2,
        cs2,
        merged_root(root, r1, r2),
        lists.update(r1, lists[r1] + lists[r2])[r],
        r,
    ) by {
        if r != r1 {
            lemma_merge_other(init, freq, others, cs, root, lists, merges, r1, r2, freq2, others2, cs2, r);
        }
    }
}

/// After a merge step every symbol's facts hold.
#[verifier::spinoff_prover]
proof fn lemma_merge_symbols(
    init: Seq<u32>,
    freq: Seq<u32>,
    others: Seq<i32>,
    cs: Seq<usize>,
    root: Seq<int>,
    lists: Seq<Seq<int>>,
    merges: int,
    r1: int,
    r2: int,
    freq2: Seq<u32>,
    others2: Seq<i32>,
    cs2: Seq<usize>,
)
    requires
        merge_step(init, freq, others, cs, root, lists, merges, r1, r2, freq2, others2, cs2),
    ensures
        ({
            let root2 = merged_root(root, r1, r2);
            let lists2 = lists.update(r1, lists[r1] + lists[r2]);
            forall|s: int|
                #![trigger root2[s]]
                #![trigger cs2[s]]
                0 <= s < 257 ==> {
                    &&& (root2[s] == -1) == (init[s] == 0)
                    &&& (freq2[s] > 0 ==> root2[s] == s)
                    &&& (root2[s] != -1 ==> 0 <= root2[s] < 257 && freq2[root2[s]] > 0 && lists2[root2[s]].contains(
                        s,
                    ))
                    &&& cs2[s] <= merges + 1
                    &&& (root2[s] == -1 ==> cs2[s] == 0)
                }
        }),
{
    let root2 = merged_root(root, r1, r2);
    let lists2 = lists.update(r1, lists[r1] + lists[r2]);
    let l1 = lists[r1];
    let l2 = lists[r2];
    let l = l1 + l2;
    lemma_merge_basics(init, freq, others, cs, root, lists, merges, r1, r2, freq2, others2, cs2);
    assert forall|s: int|
        #![trigger root2[s]]
        #![trigger cs2[s]]
        0 <= s < 257 implies {
            &&& (root2[s] == -1) == (init[s] == 0)
            &&& (freq2[s] > 0 ==> root2[s] == s)
            &&& (root2[s] != -1 ==> 0 <= root2[s] < 257 && freq2[root2[s]] > 0 && lists2[root2[s]].contains(s))
            &&& cs2[s] <= merges + 1
            &&& (root2[s] == -1 ==> cs2[s] == 0)
        } by {
        assert(cs[s] <= merges);
        if root[s] == r2 {
            assert(l2.contains(s));
            let k = choose|k: int| 0 <= k < l2.len() && #[trigger] l2[k] == s;
            assert(l[l1.len() + k] == s);
        } else if root[s] == r1 {
            assert(l1.contains(s));
            let k = choose|k: int| 0 <= k < l1.len() && #[trigger] l1[k] == s;
            assert(l[k] == s);
        } else if root[s] != -1 {
            assert(freq2[root[s]] == freq[root[s]]);
        }
    }
}

/// One step of Figure K.1 keeps the state consistent: tree `r2` joins tree
/// `r1`, every symbol of both one level deeper, the second chain appended to
/// the first, the frequencies added up in `r1`.
proof fn lemma_merge(
    init: Seq<u32>,
    freq: Seq<u32>,
    others: Seq<i32>,
    cs: Seq<usize>,
    root: Seq<int>,
    lists: Seq<Seq<int>>,
    merges: int,
    r1: int,
    r2: int,
    freq2: Seq<u32>,
    others2: Seq<i32>,
    cs2: Seq<usize>,
)
    requires
        merge_step(init, freq, others, cs, root, lists, merges, r1, r2, freq2, others2, cs2),
    ensures
        k1_inv(
            init,
            freq2,
            others2,
            cs2,
            merged_root(root, r1, r2),
            lists.update(r1, lists[r1] + lists[r2]),
            merges + 1,
        ),
{
    lemma_merge_counts(init, freq, others, cs, root, lists, merges, r1, r2, freq2, others2, cs2);
    lemma_merge_trees(init, freq, others, cs, root, lists, merges, r1, r2, freq2, others2, cs2);
    lemma_merge_symbols(init, freq, others, cs, root, lists, merges, r1, r2, freq2, others2, cs2);
    lemma_list_members(init, freq, others, cs, root, lists, merges, r1);
    assert(others2.len() == 257);
    assert(merged_root(root, r1, r2).len() == 257);
    assert(lists.update(r1, lists[r1] + lists[r2]).len() == 257);
}


/// The chain of an active tree as `deepen` needs it, also after `others`
/// changed at a symbol outside the tree.
proof fn lemma_chain(
    init: Seq<u32>,
    freq: Seq<u32>,
    others: Seq<i32>,
    cs: Seq<usize>,
    root: Seq<int>,
    lists: Seq<Seq<int>>,
    merges: int,
    r: int,
    t: int,
    x: i32,
)
    requires
        k1_inv(init, freq, others, cs, root, lists, merges),
        0 <= r < 257,
        freq[r] > 0,
        0 <= t < 257,
        root[t] != r,
    ensures
        ({
            let l = lists[r];
            let o = others.update(t, x);
            &&& l.len() >= 1
            &&& l[0] == r
            &&& l.no_duplicates()
            &&& forall|k: int| 0 <= k < l.len() ==> 0 <= #[trigger] l[k] < 257
            &&& forall|k: int| 0 <= k < l.len() - 1 ==> o[#[trigger] l[k]] == l[k + 1]
            &&& o[l.last()] == -1
            &&& forall|k: int| 0 <= k < l.len() - 1 ==> others[#[trigger] l[k]] == l[k + 1]
            &&& others[l.last()] == -1
        }),
{
    assert(tree_ok(others, cs, root, lists[r], r));
    reveal(tree_ok);
    let l = lists[r];
    assert forall|k: int| 0 <= k < l.len() - 1 implies others.update(t, x)[#[trigger] l[k]] == l[k + 1] by {
        assert(root[l[k]] == r);
    }
    assert(root[l[l.len() - 1]] == r);
}

/// Before a merge step two trees are active, so fewer than 256 merges were
/// made and every size is below 256.
proof fn lemma_merge_bound(
    init: Seq<u32>,
    freq: Seq<u32>,
    others: Seq<i32>,
    cs: Seq<usize>,
    root: Seq<int>,
    lists: Seq<Seq<int>>,
    merges: int,
    r1: int,
    r2: int,
)
    requires
        k1_inv(init, freq, others, cs, root, lists, merges),
        0 <= r1 < 257,
        0 <= r2 < 257,
        r1 != r2,
        freq[r1] > 0,
        freq[r2] > 0,
    ensures
        merges <= 255,
        forall|s: int| 0 <= s < 257 ==> #[trigger] cs[s] <= merges,
{
    lemma_two_active(freq, r1, r2, 257);
    lemma_total_nonneg(init, 257);
    assert forall|s: int| 0 <= s < 257 implies #[trigger] cs[s] <= merges by {
        assert(root[s] == root[s]);
    }
}

/// Code sizes of a Huffman tree for the frequencies (Figure K.1): the two
/// least frequent trees are joined until one tree is left, each join putting
/// the symbols of both trees one level deeper. Every symbol of non-zero
/// frequency gets a size of 1 or more, the others 0, and the sizes satisfy
/// Kraft's equality.
pub fn code_sizes(freq: [u32; 257]) -> (cs: [usize; 257])
    requires
        total(freq@, 257) <= u32::MAX,
        freq@[256] > 0,
        exists|s: int| 0 <= s < 256 && freq@[s] > 0,
    ensures
        cs@ == huffman_sizes(freq@),
        forall|s: int| 0 <= s < 257 ==> (#[trigger] cs@[s] > 0) == (freq@[s] > 0) && cs@[s] <= 256,
        kraft_cs(cs@, 257) == pow2(256),
{
    let ghost init = freq@;
    let ghost s0 = choose|s: int| 0 <= s < 256 && freq@[s] > 0;
    let mut freq = freq;
    let mut others = [-1i32; 257];
    let mut codesize = [0usize; 257];
    let ghost mut root: Seq<int> = Seq::new(257, |s: int| if init[s] > 0 { s } else { -1 });
    let ghost mut lists: Seq<Seq<int>> = Seq::new(257, |s: int| seq![s]);
    let ghost mut merges: int = 0;
    proof {
        lemma_two_active(init, s0, 256, 257);
        assert forall|r: int| 0 <= r < 257 && #[trigger] freq@[r] > 0 implies tree_ok(
            others@,
            codesize@,
            root,
            lists[r],
            r,
        ) by {
            reveal(tree_ok);
            assert forall|s: int| 0 <= s < 257 implies (root[s] == r) == (s == r) by {}
            lemma_tree_single(codesize@, root, r, 257);
            assert(lists[r].no_duplicates());
        }
        assert forall|s: int|
            #![trigger root[s]]
            #![trigger codesize@[s]]
            0 <= s < 257 implies {
                &&& (root[s] == -1) == (init[s] == 0)
                &&& (freq@[s] > 0 ==> root[s] == s)
                &&& (root[s] != -1 ==> 0 <= root[s] < 257 && freq@[root[s]] > 0 && lists[root[s]].contains(s))
                &&& codesize@[s] <= merges
                &&& (root[s] == -1 ==> codesize@[s] == 0)
            } by {
            if root[s] != -1 {
                assert(lists[s][0] == s);
            }
        }
        assert(k1_inv(init, freq@, others@, codesize@, root, lists, merges));
        assert(codesize@ =~= Seq::new(257, |s: int| 0usize));
    }
    loop
        invariant
            k1_inv(init, freq@, others@, codesize@, root, lists, merges),
            0 <= s0 < 256,
            init[s0] > 0,
            init[256] > 0,
            total(init, 257) <= u32::MAX,
            k1_states(init, merges as nat) == (freq@, codesize@, lists),
        ensures
            k1_inv(init, freq@, others@, codesize@, root, lists, merges),
            active_count(freq@, 257) <= 1,
            k1_states(init, merges as nat) == (freq@, codesize@, lists),
        decreases active_count(freq@, 257),
    {
        // Find the largest value with the least frequency
        let mut v1: Option<usize> = None;
        let mut v1_min: u32 = u32::MAX;
        let mut i: usize = 0;
        while i < 257
            invariant
                i <= 257,
                freq@.len() == 257,
                v1 matches Some(v) ==> v < i && freq@[v as int] > 0,
                v1 is None ==> v1_min == u32::MAX,
                v1 is None ==> forall|j: int| 0 <= j < i ==> freq@[j] == 0,
                v1 matches Some(v) ==> v1_min == freq@[v as int] && forall|j: int|
                    0 <= j < i && #[trigger] freq@[j] > 0 ==> freq@[v as int] < freq@[j] || (freq@[v as int]
                        == freq@[j] && j <= v),
            decreases 257 - i,
        {
            if freq[i] > 0 && freq[i] <= v1_min {
                v1_min = freq[i];
                v1 = Some(i);
            }
            i = i + 1;
        }
        let v1 = match v1 {
            Some(v) => v,
            None => {
                proof {
                    lemma_active_count(freq@, 257);
                }
                break ;
            },
        };
        // Find the largest value with the least frequency but not v1
        let mut v2: Option<usize> = None;
        let mut v2_min: u32 = u32::MAX;
        let mut i: usize = 0;
        while i < 257
            invariant
                i <= 257,
                freq@.len() == 257,
                v2 matches Some(v) ==> v < i && freq@[v as int] > 0 && v != v1,
                v2 is None ==> v2_min == u32::MAX,
                v2 is None ==> forall|j: int| 0 <= j < i && j != v1 ==> freq@[j] == 0,
                v2 matches Some(v) ==> v2_min == freq@[v as int] && forall|j: int|
                    0 <= j < i && j != v1 && #[trigger] freq@[j] > 0 ==> freq@[v as int] < freq@[j] || (freq@[
                        v as int] == freq@[j] && j <= v),
                v1 < 257,
            decreases 257 - i,
        {
            if freq[i] > 0 && freq[i] <= v2_min && i != v1 {
                v2_min = freq[i];
                v2 = Some(i);
            }
            i = i + 1;
        }
        let v2 = match v2 {
            Some(v) => v,
            None => {
                proof {
                    lemma_active_count(freq@, 257);
                }
                break ;
            },
        };
        let ghost freq0 = freq@;
        let ghost others0 = others@;
        let ghost cs0 = codesize@;
        let ghost lists0 = lists;
        proof {
            assert(is_least(freq0, -1, v1 as int));
            assert(is_least(freq0, v1 as int, v2 as int));
            lemma_least_unique(freq0, -1, v1 as int, least(freq0, -1));
            lemma_least_unique(freq0, v1 as int, v2 as int, least(freq0, v1 as int));
            lemma_total_two(freq@, v1 as int, v2 as int, 257);
            lemma_merge_bound(init, freq0, others0, cs0, root, lists, merges, v1 as int, v2 as int);
            lemma_list_members(init, freq0, others0, cs0, root, lists, merges, v1 as int);
            lemma_list_members(init, freq0, others0, cs0, root, lists, merges, v2 as int);
            lemma_chain(init, freq0, others0, cs0, root, lists, merges, v1 as int, v2 as int, 0);
            lemma_chain(
                init,
                freq0,
                others0,
                cs0,
                root,
                lists,
                merges,
                v2 as int,
                lists[v1 as int].last(),
                v2 as i32,
            );
        }
        freq[v1] = freq[v1] + freq[v2];
        freq[v2] = 0;
        let tail = deepen(&others, &mut codesize, v1, Ghost(lists[v1 as int]));
        others[tail] = v2 as i32;
        let ghost cs1 = codesize@;
        deepen(&others, &mut codesize, v2, Ghost(lists[v2 as int]));
        proof {
            assert forall|s: int|
                0 <= s < 257 implies #[trigger] codesize@[s] == cs0[s] + if lists[v1 as int].contains(s)
                || lists[v2 as int].contains(s) {
                1int
            } else {
                0
            } by {
                assert(cs1[s] == cs0[s] + if lists[v1 as int].contains(s) {
                    1int
                } else {
                    0
                });
                if lists[v1 as int].contains(s) {
                    assert(root[s] == v1);
                    assert(!lists[v2 as int].contains(s));
                }
            }
            lemma_merge(
                init,
                freq0,
                others0,
                cs0,
                root,
                lists,
                merges,
                v1 as int,
                v2 as int,
                freq@,
                others@,
                codesize@,
            );
            root = merged_root(root, v1 as int, v2 as int);
            lists = lists.update(v1 as int, lists[v1 as int] + lists[v2 as int]);
            merges = merges + 1;
            assert(codesize@ =~= k1_step((freq0, cs0, lists0)).1);
            assert(freq@ =~= k1_step((freq0, cs0, lists0)).0);
            assert(k1_states(init, merges as nat) == k1_step(k1_states(init, (merges - 1) as nat)));
            assert(active_count(freq@, 257) < active_count(freq0, 257));
            lemma_total_nonneg(freq@, 257);
            lemma_total_nonneg(freq0, 257);
        }
    }
    proof {
        lemma_two_active(init, s0, 256, 257);
        lemma_total_nonneg(init, 257);
        // the one tree left
        assert(root[256] != -1);
        let big = root[256];
        assert(freq@[big] > 0);
        lemma_one_active(freq@, big, 257);
        assert forall|s: int| 0 <= s < 257 && root[s] != -1 implies root[s] == big by {
            if root[s] != big {
                lemma_two_active(freq@, root[s], big, 257);
            }
        }
        lemma_list_members(init, freq@, others@, codesize@, root, lists, merges, big);
        assert(tree_ok(others@, codesize@, root, lists[big], big));
        reveal(tree_ok);
        assert(root[s0] == big);
        assert(lists[big].contains(s0) && lists[big].contains(256));
        assert(lists[big].len() != 1) by {
            if lists[big].len() == 1 {
                let k0 = choose|k: int| 0 <= k < lists[big].len() && #[trigger] lists[big][k] == s0;
                let k1 = choose|k: int| 0 <= k < lists[big].len() && #[trigger] lists[big][k] == 256;
            }
        }
        assert forall|s: int| 0 <= s < 257 implies (#[trigger] codesize@[s] > 0) == (init[s] > 0) && codesize@[s]
            <= 256 by {
            let rs = root[s];
            assert(codesize@[s] <= merges);
            if init[s] > 0 {
                assert(rs != -1);
                assert(rs == big);
                assert(lists[rs].contains(s));
                assert(lists[big].contains(s));
                let k = choose|k: int| 0 <= k < lists[big].len() && #[trigger] lists[big][k] == s;
                assert(codesize@[lists[big][k]] >= 1);
            }
        }
        lemma_tree_is_kraft(codesize@, root, big, 257);
    }
    codesize
}


/// Changing one count changes the weight and the number of codes by the
/// difference.
pub proof fn lemma_len_update(bits: Seq<u16>, c: int, x: u16, n: int)
    requires
        0 <= c < bits.len(),
        0 <= n <= bits.len(),
    ensures
        len_weight(bits.update(c, x), n) == len_weight(bits, n) + if c < n {
            (x - bits[c]) * size_weight(c)
        } else {
            0
        },
        len_count(bits.update(c, x), n) == len_count(bits, n) + if c < n {
            x - bits[c]
        } else {
            0
        },
    decreases n,
{
    if n > 0 {
        lemma_len_update(bits, c, x, n - 1);
        if c == n - 1 {
            let w = size_weight(c);
            assert(bits.update(c, x)[n - 1] == x);
            assert(x * w - bits[c] * w == (x - bits[c]) * w) by (nonlinear_arith);
        }
    }
}

/// Counts are at most their sum.
pub proof fn lemma_len_count_term(bits: Seq<u16>, l: int, n: int)
    requires
        0 <= l < n <= bits.len(),
    ensures
        bits[l] <= len_count(bits, n),
        len_count(bits, n) >= 0,
    decreases n,
{
    lemma_len_count_nonneg(bits, n - 1);
    if l < n - 1 {
        lemma_len_count_term(bits, l, n - 1);
    }
}

pub proof fn lemma_len_count_nonneg(bits: Seq<u16>, n: int)
    ensures
        len_count(bits, n) >= 0,
        len_weight(bits, n) >= 0,
    decreases n,
{
    if n > 0 {
        lemma_len_count_nonneg(bits, n - 1);
        lemma_pow2_pos((256 - (n - 1)) as nat);
        assert(bits[n - 1] * size_weight(n - 1) >= 0) by (nonlinear_arith)
            requires
                bits[n - 1] >= 0,
                size_weight(n - 1) >= 0,
        ;
    }
}

/// A positive number of codes has a size with a positive count.
pub proof fn lemma_len_count_some(bits: Seq<u16>, n: int)
    requires
        0 <= n <= bits.len(),
        len_count(bits, n) > 0,
    ensures
        exists|l: int| 0 <= l < n && bits[l] > 0,
    decreases n,
{
    if bits[n - 1] == 0 {
        lemma_len_count_some(bits, n - 1);
    }
}

/// Counts of zero past `m` add nothing.
pub proof fn lemma_len_tail(bits: Seq<u16>, m: int, n: int)
    requires
        0 <= m <= n <= bits.len(),
        forall|l: int| m <= l < n ==> bits[l] == 0,
    ensures
        len_weight(bits, n) == len_weight(bits, m),
        len_count(bits, n) == len_count(bits, m),
    decreases n,
{
    if n > m {
        lemma_len_tail(bits, m, n - 1);
    }
}

/// The weight of sizes below `m` is a multiple of the weight of size
/// `m - 1`.
pub proof fn lemma_len_weight_multiple(bits: Seq<u16>, m: int) -> (q: int)
    requires
        1 <= m <= 257,
        m <= bits.len(),
    ensures
        len_weight(bits, m) == size_weight(m - 1) * q,
    decreases m,
{
    if m == 1 {
        reveal_with_fuel(len_weight, 2);
        assert(len_weight(bits, 1) == bits[0] * size_weight(0));
        assert(bits[0] * size_weight(0) == size_weight(0) * bits[0]) by (nonlinear_arith);
        bits[0] as int
    } else {
        let q0 = lemma_len_weight_multiple(bits, m - 1);
        lemma_size_weight_step(m - 2);
        assert(len_weight(bits, m) == size_weight(m - 2) * q0 + bits[m - 1] * size_weight(m - 1));
        assert(size_weight(m - 1) * (2 * q0 + bits[m - 1]) == size_weight(m - 2) * q0 + bits[m - 1]
            * size_weight(m - 1)) by (nonlinear_arith)
            requires
                size_weight(m - 2) == 2 * size_weight(m - 1),
        ;
        2 * q0 + bits[m - 1]
    }
}

/// With Kraft's equality and no code longer than `i`, the number of codes
/// of size `i` is even.
pub proof fn lemma_longest_even(bits: Seq<u16>, i: int)
    requires
        bits.len() == 257,
        1 <= i <= 256,
        len_weight(bits, 257) == pow2(256),
        forall|l: int| i < l < 257 ==> bits[l] == 0,
    ensures
        bits[i] % 2 == 0,
{
    lemma_len_tail(bits, i + 1, 257);
    let q = lemma_len_weight_multiple(bits, i);
    lemma_size_weight_step(i - 1);
    let w = size_weight(i);
    assert(w >= 1);
    lemma_pow2_adds((256 - i) as nat, i as nat);
    let p = pow2(i as nat) as int;
    assert(pow2(256) == w * p);
    lemma_pow2_unfold(i as nat);
    let h = pow2((i - 1) as nat) as int;
    assert(p == 2 * h);
    assert(2 * w * q + bits[i] * w == w * p);
    assert(bits[i] == 2 * (h - q)) by (nonlinear_arith)
        requires
            2 * w * q + bits[i] * w == w * p,
            p == 2 * h,
            w >= 1,
    ;
}

/// With Kraft's equality, no code longer than `i` and `i` above 16, some
/// size from 1 to `i - 2` has codes: two sizes alone would need more than
/// 256 codes.
pub proof fn lemma_shorter_exists(bits: Seq<u16>, i: int)
    requires
        bits.len() == 257,
        17 <= i <= 256,
        bits[0] == 0,
        len_weight(bits, 257) == pow2(256),
        len_count(bits, 257) <= 256,
        forall|l: int| i < l < 257 ==> bits[l] == 0,
    ensures
        exists|j: int| 1 <= j <= i - 2 && bits[j] > 0,
{
    if forall|j: int| 1 <= j <= i - 2 ==> bits[j] == 0 {
        lemma_len_tail(bits, i + 1, 257);
        lemma_len_tail(bits, 1, i - 1);
        reveal_with_fuel(len_weight, 2);
        assert(len_weight(bits, 1) == 0);
        lemma_size_weight_step(i - 1);
        let w = size_weight(i);
        assert(len_weight(bits, i + 1) == len_weight(bits, i) + bits[i] * size_weight(i));
        assert(len_weight(bits, i) == len_weight(bits, i - 1) + bits[i - 1] * size_weight(i - 1));
        assert(len_weight(bits, 257) == bits[i - 1] * (2 * w) + bits[i] * w) by (nonlinear_arith)
            requires
                len_weight(bits, 257) == len_weight(bits, i + 1),
                len_weight(bits, i + 1) == len_weight(bits, i) + bits[i] * size_weight(i),
                len_weight(bits, i) == len_weight(bits, i - 1) + bits[i - 1] * size_weight(i - 1),
                len_weight(bits, i - 1) == len_weight(bits, 1),
                len_weight(bits, 1) == 0,
                size_weight(i - 1) == 2 * w,
                w == size_weight(i),
        ;
        lemma_pow2_adds((256 - i) as nat, i as nat);
        let p = pow2(i as nat) as int;
        assert(pow2(256) == w * p);
        assert(2 * bits[i - 1] + bits[i] == p) by (nonlinear_arith)
            requires
                bits[i - 1] * (2 * w) + bits[i] * w == w * p,
                w >= 1,
        ;
        lemma_pow2_strictly_increases(16, i as nat);
        lemma2_to64();
        lemma_len_count_term(bits, i - 1, 257);
        lemma_len_count_term(bits, i, 257);
        lemma_len_tail(bits, i + 1, 257);
        assert(bits[i - 1] + bits[i] <= len_count(bits, 257)) by {
            lemma_two_terms(bits, i - 1, i, 257);
        }
    }
}

/// Two counts together are at most the sum.
pub proof fn lemma_two_terms(bits: Seq<u16>, a: int, b: int, n: int)
    requires
        0 <= a < b < n <= bits.len(),
    ensures
        bits[a] + bits[b] <= len_count(bits, n),
    decreases n,
{
    lemma_len_count_nonneg(bits, n - 1);
    if b < n - 1 {
        lemma_two_terms(bits, a, b, n - 1);
    } else {
        lemma_len_count_term(bits, a, n - 1);
    }
}


/// The number of symbols of each code size (Figure K.2), none of size 0.
pub open spec fn count_bits(cs: Seq<usize>) -> Seq<u16> {
    Seq::new(
        257,
        |l: int|
            if l == 0 {
                0u16
            } else {
                count_eq(cs, 257, l) as u16
            },
    )
}

/// The number of codes of each size (Figure K.2).
pub fn count_sizes(cs: &[usize; 257]) -> (bits: [u16; 257])
    requires
        forall|s: int| 0 <= s < 257 ==> #[trigger] cs@[s] <= 256,
    ensures
        bits@ == count_bits(cs@),
        bits@[0] == 0,
        forall|l: int| 1 <= l < 257 ==> #[trigger] bits@[l] == count_eq(cs@, 257, l),
        len_weight(bits@, 257) == kraft_cs(cs@, 257),
        len_count(bits@, 257) == used_count(cs@, 257),
{
    let mut bits = [0u16; 257];
    proof {
        assert forall|n: int| 0 <= n <= 257 implies len_weight(bits@, n) == 0 && len_count(bits@, n) == 0 by {
            lemma_len_zero(bits@, n);
        }
    }
    let mut s: usize = 0;
    while s < 257
        invariant
            s <= 257,
            forall|t: int| 0 <= t < 257 ==> #[trigger] cs@[t] <= 256,
            bits@[0] == 0,
            forall|l: int| 0 <= l < 257 ==> #[trigger] bits@[l] <= s,
            len_weight(bits@, 257) == kraft_cs(cs@, s as int),
            len_count(bits@, 257) == used_count(cs@, s as int),
            forall|l: int| 1 <= l < 257 ==> #[trigger] bits@[l] == count_eq(cs@, s as int, l),
        decreases 257 - s,
    {
        let size = cs[s];
        assert(forall|l: int|
            1 <= l < 257 ==> #[trigger] count_eq(cs@, s + 1, l) == count_eq(cs@, s as int, l) + if cs@[s as int]
                == l {
                1int
            } else {
                0
            });
        if size > 0 {
            proof {
                lemma_len_update(bits@, size as int, (bits@[size as int] + 1) as u16, 257);
                let w = size_weight(size as int);
                assert(((bits@[size as int] + 1) as u16 - bits@[size as int]) * w == w) by (nonlinear_arith)
                    requires
                        bits@[size as int] + 1 <= u16::MAX,
                ;
            }
            bits[size] = bits[size] + 1;
        }
        s = s + 1;
    }
    proof {
        assert(bits@ =~= count_bits(cs@));
    }
    bits
}

/// All-zero counts weigh nothing.
proof fn lemma_len_zero(bits: Seq<u16>, n: int)
    requires
        0 <= n <= bits.len(),
        forall|l: int| 0 <= l < bits.len() ==> bits[l] == 0,
    ensures
        len_weight(bits, n) == 0,
        len_count(bits, n) == 0,
    decreases n,
{
    if n > 0 {
        lemma_len_zero(bits, n - 1);
    }
}

/// The largest size from 1 to `j` that has codes, 0 where none has.
pub open spec fn next_shorter(bits: Seq<u16>, j: int) -> int
    decreases j,
{
    if j <= 0 {
        0
    } else if bits[j] > 0 {
        j
    } else {
        next_shorter(bits, j - 1)
    }
}

/// One adjustment of Figure K.3 at size `i`: two codes of size `i` go, one
/// of size `i - 1` comes, and a code of the next shorter size `j` becomes
/// two of size `j + 1`.
pub open spec fn k3_adjust(bits: Seq<u16>, i: int) -> Seq<u16> {
    let j = next_shorter(bits, i - 2);
    let b1 = bits.update(i, (bits[i] - 2) as u16);
    let b2 = b1.update(i - 1, (b1[i - 1] + 1) as u16);
    let b3 = b2.update(j + 1, (b2[j + 1] + 2) as u16);
    b3.update(j, (b3[j] - 1) as u16)
}

/// Adjustments at size `i` while it has codes, at most `fuel` of them.
pub open spec fn k3_level(bits: Seq<u16>, i: int, fuel: nat) -> Seq<u16>
    decreases fuel,
{
    if fuel == 0 || bits[i] == 0 {
        bits
    } else {
        k3_level(k3_adjust(bits, i), i, (fuel - 1) as nat)
    }
}

/// Figure K.3 from size `i` down to 17: every size above 16 left without
/// codes.
pub open spec fn k3_from(bits: Seq<u16>, i: int) -> Seq<u16>
    decreases i,
{
    if i <= 16 {
        bits
    } else {
        k3_from(k3_level(bits, i, bits[i] as nat), i - 1)
    }
}

/// The code lengths of Figure K.3: the counts of sizes 1 to 16 after the
/// adjustments, less the code of the longest remaining size (the reserved
/// symbol's).
pub open spec fn k3_lengths(bits: Seq<u16>) -> Seq<u8> {
    let b = k3_from(bits, 256);
    let m = next_shorter(b, 16);
    let b2 = b.update(m, (b[m] - 1) as u16);
    Seq::new(16, |k: int| b2[k + 1] as u8)
}

/// With enough fuel, the adjustments at a size of an even number of codes
/// end the same.
proof fn lemma_k3_level_fuel(bits: Seq<u16>, i: int, f1: nat, f2: nat)
    requires
        bits.len() == 257,
        17 <= i <= 256,
        bits[i] % 2 == 0,
        f1 >= bits[i],
        f2 >= bits[i],
    ensures
        k3_level(bits, i, f1) == k3_level(bits, i, f2),
    decreases f1,
{
    if bits[i] > 0 {
        let b = k3_adjust(bits, i);
        let j = next_shorter(bits, i - 2);
        lemma_next_shorter_range(bits, i - 2);
        assert(b[i] == bits[i] - 2);
        lemma_k3_level_fuel(b, i, (f1 - 1) as nat, (f2 - 1) as nat);
    }
}

/// The next shorter size is at most where the search starts.
proof fn lemma_next_shorter_range(bits: Seq<u16>, j: int)
    ensures
        0 <= next_shorter(bits, j) <= if j < 0 {
            0
        } else {
            j
        },
        next_shorter(bits, j) > 0 ==> bits[next_shorter(bits, j)] > 0,
        forall|l: int| next_shorter(bits, j) < l <= j ==> bits[l] == 0,
    decreases j,
{
    if j > 0 && bits[j] == 0 {
        lemma_next_shorter_range(bits, j - 1);
    }
}

/// No code is longer than 16 bits.
pub open spec fn no_long_codes(bits: Seq<u16>) -> bool {
    forall|l: int| 16 < l < 257 ==> bits[l] == 0
}

/// Limit the code sizes to 16 bits (Figure K.3): while codes are longer
/// than 16 bits, two codes of the longest size become one a size shorter
/// and two of the size below the next shorter code, which becomes one size
/// longer; then one code of the longest remaining size is dropped, the one
/// of the reserved symbol. Returns the number of codes of sizes 1 to 16.
pub fn limit_sizes(bits: [u16; 257]) -> (length: [u8; 16])
    requires
        bits@[0] == 0,
        len_weight(bits@, 257) == pow2(256),
        2 <= len_count(bits@, 257) <= 256,
    ensures
        length@ == k3_lengths(bits@),
        crate::huffman::valid_lengths(length@),
        crate::huffman::length_sum(length@, 16) == len_count(bits@, 257) - 1,
        no_long_codes(bits@) ==> exists|m: int|
            1 <= m <= 16 && bits@[m] > 0 && (forall|l: int| m < l <= 16 ==> bits@[l] == 0) && length@[m - 1]
                == bits@[m] - 1 && (forall|l: int| 1 <= l <= 16 && l != m ==> #[trigger] length@[l - 1] == bits@[l]),
{
    let ghost n = len_count(bits@, 257);
    let ghost orig = bits@;
    let mut bits = bits;
    let mut i: usize = 256;
    while i > 16
        invariant
            16 <= i <= 256,
            bits@[0] == 0,
            len_weight(bits@, 257) == pow2(256),
            len_count(bits@, 257) == n,
            2 <= n <= 256,
            forall|l: int| i < l < 257 ==> bits@[l] == 0,
            no_long_codes(orig) ==> bits@ == orig,
            k3_from(bits@, i as int) == k3_from(orig, 256),
            bits@.len() == 257,
        decreases i,
    {
        let ghost level_start = bits@;
        proof {
            lemma_longest_even(bits@, i as int);
        }
        while bits[i] > 0
            invariant
                17 <= i <= 256,
                bits@[0] == 0,
                len_weight(bits@, 257) == pow2(256),
                len_count(bits@, 257) == n,
                2 <= n <= 256,
                forall|l: int| i < l < 257 ==> bits@[l] == 0,
                no_long_codes(orig) ==> bits@ == orig,
                bits@.len() == 257,
                bits@[i as int] % 2 == 0,
                level_start[i as int] % 2 == 0,
                level_start.len() == 257,
                k3_level(bits@, i as int, bits@[i as int] as nat) == k3_level(
                    level_start,
                    i as int,
                    level_start[i as int] as nat,
                ),
            decreases bits@[i as int],
        {
            proof {
                if no_long_codes(orig) {
                    assert(orig[i as int] == 0);
                }
                lemma_longest_even(bits@, i as int);
                lemma_shorter_exists(bits@, i as int);
            }
            let mut j = i - 2;
            while bits[j] == 0
                invariant
                    1 <= j <= i - 2,
                    17 <= i <= 256,
                    exists|jj: int| 1 <= jj <= j && bits@[jj] > 0,
                    next_shorter(bits@, j as int) == next_shorter(bits@, i - 2),
                decreases j,
            {
                proof {
                    let jj = choose|jj: int| 1 <= jj <= j && bits@[jj] > 0;
                    assert(jj < j);
                }
                j = j - 1;
            }
            proof {
                lemma_len_count_term(bits@, i as int, 257);
                lemma_len_count_term(bits@, (i - 1) as int, 257);
                lemma_len_count_term(bits@, (j + 1) as int, 257);
                lemma_len_count_term(bits@, j as int, 257);
            }
            let ghost b0 = bits@;
            bits[i] = bits[i] - 2;
            let ghost b1 = bits@;
            bits[i - 1] = bits[i - 1] + 1;
            let ghost b2 = bits@;
            proof {
                lemma_len_count_term(b2, (j + 1) as int, 257);
                lemma_len_update(b0, i as int, (b0[i as int] - 2) as u16, 257);
                lemma_len_update(b1, (i - 1) as int, (b1[i - 1] + 1) as u16, 257);
                lemma_len_count_term(b2, (j + 1) as int, 257);
            }
            bits[j + 1] = bits[j + 1] + 2;
            let ghost b3 = bits@;
            proof {
                lemma_len_update(b2, (j + 1) as int, (b2[j + 1] + 2) as u16, 257);
            }
            bits[j] = bits[j] - 1;
            proof {
                assert(next_shorter(b0, i - 2) == j);
                assert(bits@ =~= k3_adjust(b0, i as int));
                assert(k3_level(b0, i as int, b0[i as int] as nat) == k3_level(
                    bits@,
                    i as int,
                    (b0[i as int] - 1) as nat,
                ));
                lemma_longest_even(b0, i as int);
                lemma_k3_level_fuel(bits@, i as int, (b0[i as int] - 1) as nat, bits@[i as int] as nat);
                lemma_len_update(b3, j as int, (b3[j as int] - 1) as u16, 257);
                lemma_size_weight_step((i - 1) as int);
                lemma_size_weight_step(j as int);
                let wi = size_weight(i as int);
                let wi1 = size_weight((i - 1) as int);
                let wj = size_weight(j as int);
                let wj1 = size_weight((j + 1) as int);
                assert(((b0[i as int] - 2) as u16 - b0[i as int]) * wi == -2 * wi) by (nonlinear_arith)
                    requires
                        b0[i as int] >= 2,
                ;
                assert(((b1[i - 1] + 1) as u16 - b1[i - 1]) * wi1 == wi1) by (nonlinear_arith)
                    requires
                        b1[i - 1] + 1 <= u16::MAX,
                ;
                assert(((b2[j + 1] + 2) as u16 - b2[j + 1]) * wj1 == 2 * wj1) by (nonlinear_arith)
                    requires
                        b2[j + 1] + 2 <= u16::MAX,
                ;
                assert(((b3[j as int] - 1) as u16 - b3[j as int]) * wj == -wj) by (nonlinear_arith)
                    requires
                        b3[j as int] >= 1,
                ;
            }
        }
        proof {
            assert(k3_level(bits@, i as int, bits@[i as int] as nat) == bits@);
            assert(k3_from(level_start, i as int) == k3_from(
                k3_level(level_start, i as int, level_start[i as int] as nat),
                i - 1,
            ));
        }
        i = i - 1;
    }
    proof {
        lemma_len_count_some(bits@, 257);
        assert(k3_from(bits@, 16) == bits@);
    }
    while bits[i] == 0
        invariant
            1 <= i <= 16,
            bits@[0] == 0,
            forall|l: int| 16 < l < 257 ==> bits@[l] == 0,
            exists|l: int| 1 <= l <= i && bits@[l] > 0,
            len_weight(bits@, 257) == pow2(256),
            len_count(bits@, 257) == n,
            2 <= n <= 256,
            forall|l: int| i < l < 257 ==> bits@[l] == 0,
            no_long_codes(orig) ==> bits@ == orig,
            bits@ == k3_from(orig, 256),
            next_shorter(bits@, i as int) == next_shorter(bits@, 16),
        decreases i,
    {
        proof {
            let l = choose|l: int| 1 <= l <= i && bits@[l] > 0;
            assert(l < i);
        }
        i = i - 1;
    }
    let ghost before = bits@;
    let ghost m = i as int;
    bits[i] = bits[i] - 1;
    proof {
        lemma_len_update(before, i as int, (before[i as int] - 1) as u16, 257);
        lemma_pow2_pos((256 - i) as nat);
        lemma_len_count_term(bits@, 0, 257);
        let w = size_weight(i as int);
        assert(((before[i as int] - 1) as u16 - before[i as int]) * w == -w) by (nonlinear_arith)
            requires
                before[i as int] >= 1,
        ;
        assert(len_weight(bits@, 257) == pow2(256) - w);
    }
    let mut length = [0u8; 16];
    let mut k: usize = 0;
    while k < 16
        invariant
            k <= 16,
            len_count(bits@, 257) == n - 1,
            n <= 256,
            forall|q: int| 0 <= q < k ==> #[trigger] length@[q] == bits@[q + 1],
            bits@ == before.update(m, (before[m] - 1) as u16),
            1 <= m <= 16,
            before[m] >= 1,
            forall|l: int| m < l < 257 ==> before[l] == 0,
            no_long_codes(orig) ==> before == orig,
        decreases 16 - k,
    {
        proof {
            lemma_len_count_term(bits@, (k + 1) as int, 257);
        }
        length[k] = bits[k + 1] as u8;
        k = k + 1;
    }
    proof {
        assert(next_shorter(before, m) == m);
        assert(length@ =~= k3_lengths(orig));
        if no_long_codes(orig) {
            assert(forall|l: int| 1 <= l <= 16 && l != m ==> #[trigger] length@[l - 1] == orig[l]);
            assert(length@[m - 1] == orig[m] - 1);
        }
        lemma_len_tail(bits@, 17, 257);
        lemma_lengths_of_counts(bits@, length@, 17);
        lemma_pow2_adds(240, 16);
        let k16 = crate::huffman::kraft_sum(length@, 16);
        assert(pow2(240) * k16 < pow2(240) * pow2(16));
        lemma_pow2_pos(240);
        assert(k16 < pow2(16)) by (nonlinear_arith)
            requires
                pow2(240) * k16 < pow2(240) * pow2(16),
                pow2(240) > 0,
        ;
    }
    length
}

/// The counts of sizes 1 to 16 as the table's code lengths: the same number
/// of codes, and the weight in units of 2^-16.
proof fn lemma_lengths_of_counts(bits: Seq<u16>, length: Seq<u8>, m: int)
    requires
        1 <= m <= 17,
        bits.len() == 257,
        length.len() == 16,
        bits[0] == 0,
        forall|k: int| 0 <= k < 16 ==> #[trigger] length[k] == bits[k + 1],
    ensures
        len_count(bits, m) == crate::huffman::length_sum(length, m - 1),
        len_weight(bits, m) == pow2(240) * crate::huffman::kraft_sum(length, m - 1),
    decreases m,
{
    if m == 1 {
        reveal_with_fuel(len_weight, 2);
        reveal_with_fuel(len_count, 2);
        assert(crate::huffman::kraft_sum(length, 0) == 0);
        assert(bits[0] * size_weight(0) == 0) by (nonlinear_arith)
            requires
                bits[0] == 0,
        ;
        assert(pow2(240) * 0 == 0) by (nonlinear_arith);
    } else {
        lemma_lengths_of_counts(bits, length, m - 1);
        assert(crate::huffman::kraft_sum(length, m - 1) == crate::huffman::kraft_sum(length, m - 2) + (length[m
            - 2] as nat) * pow2((16 - (m - 1)) as nat));
        assert(len_weight(bits, m) == len_weight(bits, m - 1) + bits[m - 1] * size_weight(m - 1));
        lemma_pow2_adds(240, (16 - (m - 1)) as nat);
        assert(size_weight(m - 1) == pow2(240) * pow2((16 - (m - 1)) as nat));
        assert(bits[m - 1] == length[m - 2]);
        let a = crate::huffman::kraft_sum(length, m - 2);
        let t = length[m - 2] as nat * pow2((16 - (m - 1)) as nat);
        assert(bits[m - 1] * (pow2(240) * pow2((16 - (m - 1)) as nat)) == pow2(240) * t) by (nonlinear_arith)
            requires
                bits[m - 1] == length[m - 2],
                t == length[m - 2] as nat * pow2((16 - (m - 1)) as nat),
        ;
        assert(pow2(240) * a + pow2(240) * t == pow2(240) * (a + t)) by (nonlinear_arith);
    }
}


/// Number of symbols among the first `n` with a size from 1 to `size - 1`.
pub open spec fn count_below(cs: Seq<usize>, n: int, size: int) -> int
    decreases n,
{
    if n <= 0 {
        0
    } else {
        count_below(cs, n - 1, size) + if 0 < cs[n - 1] < size {
            1int
        } else {
            0
        }
    }
}

/// Number of symbols among the first `n` with size `size`.
pub open spec fn count_eq(cs: Seq<usize>, n: int, size: int) -> int
    decreases n,
{
    if n <= 0 {
        0
    } else {
        count_eq(cs, n - 1, size) + if cs[n - 1] == size {
            1int
        } else {
            0
        }
    }
}

proof fn lemma_count_below_step(cs: Seq<usize>, n: int, size: int)
    requires
        size >= 1,
    ensures
        count_below(cs, n, size + 1) == count_below(cs, n, size) + count_eq(cs, n, size),
    decreases n,
{
    if n > 0 {
        lemma_count_below_step(cs, n - 1, size);
    }
}

proof fn lemma_count_below_one(cs: Seq<usize>, n: int)
    ensures
        count_below(cs, n, 1) == 0,
    decreases n,
{
    if n > 0 {
        lemma_count_below_one(cs, n - 1);
    }
}

proof fn lemma_count_below_all(cs: Seq<usize>, n: int)
    requires
        0 <= n <= cs.len(),
        forall|s: int| 0 <= s < n ==> cs[s] <= 256,
    ensures
        count_below(cs, n, 257) == used_count(cs, n),
    decreases n,
{
    if n > 0 {
        lemma_count_below_all(cs, n - 1);
    }
}

/// No symbol among the first `n` has size `size`: none is counted.
proof fn lemma_count_eq_none(cs: Seq<usize>, n: int, size: int)
    requires
        forall|s: int| 0 <= s < n ==> cs[s] != size,
    ensures
        count_eq(cs, n, size) == 0,
    decreases n,
{
    if n > 0 {
        lemma_count_eq_none(cs, n - 1, size);
    }
}

/// A table's code lengths and values laid out from the code sizes `cs` of
/// the symbols 0 to 256 (Annex K.2): the values are the symbols below 256
/// that have a code, by code size then by value, and where no size exceeds
/// 16 bits, the lengths count the codes of each size, less the one longest
/// code (the reserved symbol's).
pub open spec fn sized_table(cs: Seq<usize>, lengths: Seq<u8>, values: Seq<u8>) -> bool {
    &&& forall|k: int| 0 <= k < values.len() ==> cs[#[trigger] values[k] as int] > 0
    &&& forall|s: int| 0 <= s < 256 && #[trigger] cs[s] > 0 ==> values.contains(s as u8)
    &&& forall|a: int, b: int|
        0 <= a < b < values.len() ==> size_order(cs, #[trigger] values[a], #[trigger] values[b])
    &&& (forall|s: int| 0 <= s < 257 ==> #[trigger] cs[s] <= 16) ==> exists|m: int|
        1 <= m <= 16 && count_eq(cs, 257, m) > 0 && (forall|l: int| m < l <= 16 ==> count_eq(cs, 257, l) == 0)
            && lengths[m - 1] == count_eq(cs, 257, m) - 1 && (forall|l: int|
            1 <= l <= 16 && l != m ==> #[trigger] lengths[l - 1] == count_eq(cs, 257, l))
}

/// Counts of sizes of at most 16 bits leave no longer code.
pub proof fn lemma_short_sizes(cs: Seq<usize>, bits: Seq<u16>)
    requires
        cs.len() == 257,
        bits.len() == 257,
        forall|l: int| 1 <= l < 257 ==> #[trigger] bits[l] == count_eq(cs, 257, l),
        forall|s: int| 0 <= s < 257 ==> #[trigger] cs[s] <= 16,
    ensures
        no_long_codes(bits),
{
    assert forall|l: int| 16 < l < 257 implies bits[l] == 0 by {
        lemma_count_eq_none(cs, 257, l);
    }
}

/// The symbols below `j` with code size `size`, in order.
pub open spec fn symbols_of_size(cs: Seq<usize>, size: int, j: int) -> Seq<u8>
    decreases j,
{
    if j <= 0 {
        Seq::empty()
    } else {
        symbols_of_size(cs, size, j - 1) + if cs[j - 1] == size {
            seq![(j - 1) as u8]
        } else {
            Seq::empty()
        }
    }
}

/// The symbols 0 to 255 with code sizes 1 to `size - 1`, by size then by
/// value (Figure K.4).
pub open spec fn k4_upto(cs: Seq<usize>, size: int) -> Seq<u8>
    decreases size,
{
    if size <= 1 {
        Seq::empty()
    } else {
        k4_upto(cs, size - 1) + symbols_of_size(cs, size - 1, 256)
    }
}

/// The coded symbols 0 to 255 by code size then by value (Figure K.4).
pub open spec fn k4_values(cs: Seq<usize>) -> Seq<u8> {
    k4_upto(cs, 257)
}

/// Symbol `a` comes before symbol `b`: a shorter code, or the same size
/// and a lower value.
pub open spec fn size_order(cs: Seq<usize>, a: u8, b: u8) -> bool {
    cs[a as int] < cs[b as int] || (cs[a as int] == cs[b as int] && a < b)
}

/// The symbols 0 to 255 that have a code, by code size then by value
/// (Figure K.4).
pub fn sort_symbols(cs: &[usize; 257]) -> (values: Vec<u8>)
    requires
        forall|s: int| 0 <= s < 257 ==> #[trigger] cs@[s] <= 256,
    ensures
        values@.len() == used_count(cs@, 256),
        forall|k: int| 0 <= k < values@.len() ==> cs@[#[trigger] values@[k] as int] > 0,
        forall|s: int| 0 <= s < 256 && #[trigger] cs@[s] > 0 ==> values@.contains(s as u8),
        forall|a: int, b: int|
            0 <= a < b < values@.len() ==> size_order(cs@, #[trigger] values@[a], #[trigger] values@[b]),
        values@ == k4_values(cs@),
{
    let mut huffval: Vec<u8> = Vec::new();
    let mut size: usize = 1;
    proof {
        lemma_count_below_one(cs@, 256);
        assert(huffval@ =~= k4_upto(cs@, 1));
    }
    while size <= 256
        invariant
            1 <= size <= 257,
            forall|s: int| 0 <= s < 257 ==> #[trigger] cs@[s] <= 256,
            huffval@.len() == count_below(cs@, 256, size as int),
            forall|k: int| 0 <= k < huffval@.len() ==> cs@[#[trigger] huffval@[k] as int] > 0,
            forall|s: int| 0 <= s < 256 && 0 < #[trigger] cs@[s] < size ==> huffval@.contains(s as u8),
            forall|k: int| 0 <= k < huffval@.len() ==> cs@[#[trigger] huffval@[k] as int] < size,
            forall|a: int, b: int|
                0 <= a < b < huffval@.len() ==> size_order(cs@, #[trigger] huffval@[a], #[trigger] huffval@[b]),
            huffval@ == k4_upto(cs@, size as int),
        decreases 257 - size,
    {
        let ghost start_len = huffval@.len();
        let ghost start = huffval@;
        let mut j: usize = 0;
        while j < 256
            invariant
                j <= 256,
                1 <= size <= 256,
                huffval@.len() == start_len + count_eq(cs@, j as int, size as int),
                start_len == count_below(cs@, 256, size as int),
                forall|k: int| 0 <= k < huffval@.len() ==> cs@[#[trigger] huffval@[k] as int] > 0,
                forall|s: int| 0 <= s < 256 && 0 < #[trigger] cs@[s] < size ==> huffval@.contains(s as u8),
                forall|s: int| 0 <= s < j && #[trigger] cs@[s] == size ==> huffval@.contains(s as u8),
                forall|k: int|
                    0 <= k < huffval@.len() ==> cs@[#[trigger] huffval@[k] as int] < size || (cs@[huffval@[k] as int]
                        == size && huffval@[k] < j),
                forall|a: int, b: int|
                    0 <= a < b < huffval@.len() ==> size_order(cs@, #[trigger] huffval@[a], #[trigger] huffval@[b]),
                huffval@ == start + symbols_of_size(cs@, size as int, j as int),
            decreases 256 - j,
        {
            assert(symbols_of_size(cs@, size as int, j + 1) == symbols_of_size(cs@, size as int, j as int) + if cs@[j as int]
                == size {
                seq![j as u8]
            } else {
                Seq::<u8>::empty()
            });
            if cs[j] == size {
                let ghost before = huffval@;
                huffval.push(j as u8);
                proof {
                    assert forall|a: int, b: int|
                        0 <= a < b < huffval@.len() implies size_order(
                        cs@,
                        #[trigger] huffval@[a],
                        #[trigger] huffval@[b],
                    ) by {
                        if b < before.len() {
                            assert(huffval@[a] == before[a] && huffval@[b] == before[b]);
                        } else {
                            assert(huffval@[a] == before[a]);
                            assert(huffval@[b] == j as u8);
                        }
                    }
                    assert(huffval@[before.len() as int] == j as u8);
                    assert forall|s: int|
                        0 <= s < 256 && 0 < #[trigger] cs@[s] < size implies huffval@.contains(s as u8) by {
                        let k = choose|k: int| 0 <= k < before.len() && before[k] == s as u8;
                        assert(huffval@[k] == s as u8);
                    }
                    assert forall|s: int| 0 <= s < j + 1 && #[trigger] cs@[s] == size implies huffval@.contains(
                        s as u8,
                    ) by {
                        if s < j {
                            let k = choose|k: int| 0 <= k < before.len() && before[k] == s as u8;
                            assert(huffval@[k] == s as u8);
                        }
                    }
                    assert(huffval@ =~= start + symbols_of_size(cs@, size as int, j + 1));
                }
            } else {
                assert(huffval@ =~= start + symbols_of_size(cs@, size as int, j + 1));
            }
            j = j + 1;
        }
        proof {
            lemma_count_below_step(cs@, 256, size as int);
            assert(k4_upto(cs@, size + 1) == k4_upto(cs@, size as int) + symbols_of_size(cs@, size as int, 256));
        }
        size = size + 1;
    }
    proof {
        lemma_count_below_all(cs@, 256);
    }
    huffval
}

/// The number of coded symbols is the number of non-zero frequencies where
/// exactly the symbols of non-zero frequency are coded.
pub proof fn lemma_used_is_active(cs: Seq<usize>, f: Seq<u32>, n: int)
    requires
        0 <= n <= cs.len(),
        n <= f.len(),
        forall|s: int| 0 <= s < n ==> (cs[s] > 0) == (f[s] > 0),
    ensures
        used_count(cs, n) == active_count(f, n),
    decreases n,
{
    if n > 0 {
        lemma_used_is_active(cs, f, n - 1);
    }
}

/// A zero frequency leaves at most `n - 1` non-zero ones.
pub proof fn lemma_active_below(f: Seq<u32>, k: int, n: int)
    requires
        0 <= k < n <= f.len(),
        f[k] == 0,
    ensures
        active_count(f, n) <= n - 1,
    decreases n,
{
    lemma_total_nonneg(f, n - 1);
    if k < n - 1 {
        lemma_active_below(f, k, n - 1);
    }
}

} // verus!
