//! A multiway search tree with a configurable fan-out: an ordered map from
//! `u64` keys to `u64` values. Each node holds a sorted run of entries and,
//! when internal, one more child than it has entries; insertion splits a
//! node that grows past the configured order and removal merges an
//! underfull node with a neighbour, so that all leaves stay at one depth.

use vstd::prelude::*;

use crate::pairs::{
    folded_map, has_key, keys_above, keys_below, lemma_map_of_contains, lemma_map_of_index,
    lemma_remove_key_props, lemma_sorted_insert_props,
    lemma_ssorted_three, lemma_window, map_of, remove_key, sorted_insert, ssorted,
};

verus! {

#[verifier::ext_equal]
struct BNode {
    entries: Vec<(u64, u64)>,
    children: Vec<BNode>,
}

/// A multiway search tree with a configurable maximum number of entries
/// per node.
pub struct BTree {
    root: Option<Box<BNode>>,
    len: usize,
    max_keys: usize,
    min_keys: usize,
}

/// The least entry count an interior rebalancing leaves in a node.
spec fn lo_occ(m: int) -> int {
    (m - 1) / 2
}

/// The most entries a node can hold between mutations.
spec fn hi_occ(m: int) -> int {
    2 * (m / 2)
}

/// The lower key bound that entry list `e` imposes on child `i`.
spec fn clo(e: Seq<(u64, u64)>, lo: int, i: int) -> int {
    if i <= 0 {
        lo
    } else {
        e[i - 1].0 as int
    }
}

/// The upper key bound that entry list `e` imposes on child `i`.
spec fn chi(e: Seq<(u64, u64)>, hi: int, i: int) -> int {
    if i >= e.len() {
        hi
    } else {
        e[i].0 as int
    }
}

/// The distance from a node down to its leaves; every path has the same
/// length in a well-formed tree.
spec fn bdepth(n: BNode) -> nat
    decreases n,
{
    if n.children@.len() == 0 {
        0
    } else {
        1 + bdepth(n.children@[0])
    }
}

/// The pairs of the subtree from entry position `i` onward, children
/// interleaved, in ascending key order.
spec fn bseq_from(n: BNode, i: int) -> Seq<(u64, u64)>
    decreases n, n.entries@.len() - i + 1,
{
    if i < 0 || i > n.entries@.len() {
        Seq::empty()
    } else {
        let cs = if n.children@.len() == n.entries@.len() + 1 {
            bseq_from(n.children@[i], 0)
        } else {
            Seq::empty()
        };
        if i == n.entries@.len() {
            cs
        } else {
            cs + seq![n.entries@[i]] + bseq_from(n, i + 1)
        }
    }
}

/// All pairs of the subtree in ascending key order.
spec fn bseq(n: BNode) -> Seq<(u64, u64)> {
    bseq_from(n, 0)
}

/// The pairs of child `i`, empty at a leaf.
spec fn childseq(n: BNode, i: int) -> Seq<(u64, u64)> {
    if n.children@.len() == n.entries@.len() + 1 {
        bseq(n.children@[i])
    } else {
        Seq::empty()
    }
}

/// The pairs of the subtree before entry position `i`.
spec fn bpre(n: BNode, i: int) -> Seq<(u64, u64)>
    decreases i,
{
    if i <= 0 {
        Seq::empty()
    } else {
        bpre(n, i - 1) + childseq(n, i - 1) + seq![n.entries@[i - 1]]
    }
}

/// The shape and ordering invariant of a subtree whose own entry count may
/// have dropped to zero: keys sorted and strictly inside `(lo, hi)`, a
/// leaf childless and an internal node holding entries + 1 children, every
/// child well-occupied, and all children of one depth.
spec fn bwf_sub(n: BNode, lo: int, hi: int, m: int) -> bool
    decreases n,
{
    let e = n.entries@;
    let c = n.children@;
    &&& e.len() <= hi_occ(m)
    &&& (forall|i: int| 0 <= i < e.len() ==> lo < (#[trigger] e[i]).0 < hi)
    &&& (forall|i: int, j: int| 0 <= i < j < e.len() ==> e[i].0 < e[j].0)
    &&& (c.len() == 0 || c.len() == e.len() + 1)
    &&& (forall|i: int|
        0 <= i < c.len() ==> bwf_sub(#[trigger] c[i], clo(e, lo, i), chi(e, hi, i), m))
    &&& (forall|i: int| 0 <= i < c.len() ==> (#[trigger] c[i]).entries@.len() >= lo_occ(m))
    &&& (forall|i: int| 0 <= i < c.len() ==> bdepth(#[trigger] c[i]) + 1 == bdepth(n))
}

/// The invariant of a proper node: `bwf_sub` and at least one entry.
spec fn bwf(n: BNode, lo: int, hi: int, m: int) -> bool {
    bwf_sub(n, lo, hi, m) && n.entries@.len() >= 1
}

/// The invariant of an internal node one of whose children, the one at
/// `xj`, may have dropped one entry below the occupancy rule.
spec fn bwf_except(n: BNode, lo: int, hi: int, m: int, xj: int) -> bool {
    let e = n.entries@;
    let c = n.children@;
    &&& e.len() <= hi_occ(m)
    &&& (forall|i: int| 0 <= i < e.len() ==> lo < (#[trigger] e[i]).0 < hi)
    &&& (forall|i: int, j: int| 0 <= i < j < e.len() ==> e[i].0 < e[j].0)
    &&& c.len() == e.len() + 1
    &&& (forall|i: int|
        0 <= i < c.len() ==> bwf_sub(#[trigger] c[i], clo(e, lo, i), chi(e, hi, i), m))
    &&& (forall|i: int|
        0 <= i < c.len() && i != xj ==> (#[trigger] c[i]).entries@.len() >= lo_occ(m))
    &&& 0 <= xj < c.len()
    &&& c[xj].entries@.len() >= lo_occ(m) - 1
    &&& (forall|i: int| 0 <= i < c.len() ==> bdepth(#[trigger] c[i]) + 1 == bdepth(n))
}

/// A leaf's pairs are its entries.
proof fn lemma_bseq_leaf_from(n: BNode, i: int)
    requires
        n.children@.len() == 0,
        0 <= i <= n.entries@.len(),
    ensures
        bseq_from(n, i) == n.entries@.skip(i),
    decreases n.entries@.len() - i + 1,
{
    if i == n.entries@.len() {
        assert(bseq_from(n, i) =~= n.entries@.skip(i));
    } else {
        lemma_bseq_leaf_from(n, i + 1);
        assert(bseq_from(n, i) =~= n.entries@.skip(i));
    }
}

/// The subtree splits at any entry position into what sits before it and
/// what sits from it onward.
proof fn lemma_bseq_decomp(n: BNode, i: int)
    requires
        0 <= i <= n.entries@.len(),
    ensures
        bseq(n) == bpre(n, i) + bseq_from(n, i),
    decreases i,
{
    if i == 0 {
        assert(bpre(n, 0) + bseq_from(n, 0) =~= bseq(n));
    } else {
        lemma_bseq_decomp(n, i - 1);
        assert(bseq_from(n, i - 1) == childseq(n, i - 1) + seq![n.entries@[i - 1]] + bseq_from(
            n,
            i,
        )) by {
            if n.children@.len() == n.entries@.len() + 1 {
                assert(bseq_from(n, i - 1) == bseq_from(n.children@[i - 1], 0) + seq![
                    n.entries@[i - 1],
                ] + bseq_from(n, i));
            } else {
                assert(bseq_from(n, i - 1) =~= childseq(n, i - 1) + seq![n.entries@[i - 1]]
                    + bseq_from(n, i));
            }
        }
        assert(bseq(n) =~= bpre(n, i) + bseq_from(n, i));
    }
}

/// Sortedness, the key range, and a length bound for the tail of a
/// well-formed subtree.
proof fn lemma_bseq_from_props(n: BNode, lo: int, hi: int, m: int, i: int)
    requires
        bwf_loose(n, lo, hi, m),
        0 <= i <= n.entries@.len(),
    ensures
        ssorted(bseq_from(n, i)),
        forall|j: int|
            0 <= j < bseq_from(n, i).len() ==> clo(n.entries@, lo, i) < (#[trigger] bseq_from(
                n,
                i,
            )[j]).0 < hi,
        bseq_from(n, i).len() >= n.entries@.len() - i,
    decreases n, n.entries@.len() - i + 1,
{
    let e = n.entries@;
    let c = n.children@;
    let lo_i = clo(e, lo, i);
    if i == e.len() {
        if c.len() == e.len() + 1 {
            lemma_loose(c[i], lo_i, hi, m);
            lemma_bseq_from_props(c[i], lo_i, hi, m, 0);
            assert(bseq_from(n, i) == bseq_from(c[i], 0));
            assert(clo(c[i].entries@, clo(e, lo, i), 0) == lo_i);
        }
    } else {
        lemma_bseq_from_props(n, lo, hi, m, i + 1);
        let p = e[i];
        let rest = bseq_from(n, i + 1);
        let cs = if c.len() == e.len() + 1 {
            bseq_from(c[i], 0)
        } else {
            Seq::<(u64, u64)>::empty()
        };
        if c.len() == e.len() + 1 {
            lemma_loose(c[i], lo_i, p.0 as int, m);
            lemma_bseq_from_props(c[i], lo_i, p.0 as int, m, 0);
            assert(chi(e, hi, i) == p.0 as int);
        }
        assert(bseq_from(n, i) == cs + seq![p] + rest);
        assert(keys_below(cs, p.0));
        assert(keys_above(rest, p.0)) by {
            assert(clo(e, lo, i + 1) == p.0 as int);
        }
        assert(ssorted(cs)) by {
            if c.len() != e.len() + 1 {
            }
        }
        lemma_ssorted_three(cs, p, rest);
        let s = bseq_from(n, i);
        assert forall|j: int| 0 <= j < s.len() implies lo_i < (#[trigger] s[j]).0 < hi by {
            if j < cs.len() {
                assert(s[j] == cs[j]);
            } else if j == cs.len() {
                assert(s[j] == p);
                assert(lo_i < p.0 < hi) by {
                    if i > 0 {
                        assert(e[i - 1].0 < e[i].0);
                    }
                }
            } else {
                assert(s[j] == rest[j - cs.len() - 1]);
                assert(lo_i < rest[j - cs.len() - 1].0) by {
                    assert(clo(e, lo, i + 1) == p.0 as int);
                    assert(lo_i < p.0) by {
                        if i > 0 {
                            assert(e[i - 1].0 < e[i].0);
                        }
                    }
                }
            }
        }
    }
}

/// Sortedness and the key range of a whole well-formed subtree, and that
/// it stores at least as many pairs as its top node holds entries.
proof fn lemma_bseq_props(n: BNode, lo: int, hi: int, m: int)
    requires
        bwf_loose(n, lo, hi, m),
    ensures
        ssorted(bseq(n)),
        forall|j: int| 0 <= j < bseq(n).len() ==> lo < (#[trigger] bseq(n)[j]).0 < hi,
        bseq(n).len() >= n.entries@.len(),
{
    lemma_bseq_from_props(n, lo, hi, m, 0);
}

/// A node built from a prefix of another node's entries and children
/// stores the pairs that sit before the cut, cut child included.
proof fn lemma_bseq_take(a: BNode, b: BNode, x: int)
    requires
        0 <= x <= a.entries@.len(),
        a.children@.len() == 0 || a.children@.len() == a.entries@.len() + 1,
        b.entries@ == a.entries@.subrange(0, x),
        if a.children@.len() == 0 {
            b.children@.len() == 0
        } else {
            b.children@ == a.children@.subrange(0, x + 1)
        },
    ensures
        bseq(b) == bpre(a, x) + childseq(a, x),
{
    if a.children@.len() == 0 {
        lemma_bseq_leaf_from(a, 0);
        lemma_bseq_leaf_from(b, 0);
        lemma_bpre_leaf(a, x);
        assert(bseq(b) =~= bpre(a, x) + childseq(a, x));
    } else {
        lemma_bpre_eq(a, b, x);
        lemma_bseq_decomp(b, x);
        assert(bseq_from(b, x) == childseq(b, x));
        assert(b.children@[x] == a.children@[x]);
        assert(childseq(b, x) == childseq(a, x));
        assert(bseq(b) == bpre(b, x) + childseq(a, x));
    }
}

/// On a leaf the prefix of the pair sequence is the prefix of the entries.
proof fn lemma_bpre_leaf(a: BNode, i: int)
    requires
        a.children@.len() == 0,
        0 <= i <= a.entries@.len(),
    ensures
        bpre(a, i) == a.entries@.subrange(0, i),
    decreases i,
{
    if i == 0 {
        assert(bpre(a, 0) =~= a.entries@.subrange(0, 0));
    } else {
        lemma_bpre_leaf(a, i - 1);
        assert(bpre(a, i) =~= a.entries@.subrange(0, i));
    }
}

/// Two nodes that agree on their first `x` entries and children agree on
/// everything that sits before position `x`.
proof fn lemma_bpre_eq(a: BNode, b: BNode, x: int)
    requires
        0 <= x <= a.entries@.len(),
        a.children@.len() == a.entries@.len() + 1,
        x <= b.entries@.len(),
        b.children@.len() == b.entries@.len() + 1,
        forall|i: int| 0 <= i < x ==> a.entries@[i] == b.entries@[i],
        forall|i: int| 0 <= i <= x ==> a.children@[i] == b.children@[i],
    ensures
        bpre(b, x) == bpre(a, x),
    decreases x,
{
    if x > 0 {
        lemma_bpre_eq(a, b, x - 1);
        assert(childseq(b, x - 1) == childseq(a, x - 1));
    }
}

/// A node built from a suffix of another node's entries and children
/// stores the pairs from the cut onward.
proof fn lemma_bseq_skip(a: BNode, b: BNode, x: int)
    requires
        0 <= x <= a.entries@.len(),
        a.children@.len() == 0 || a.children@.len() == a.entries@.len() + 1,
        b.entries@ == a.entries@.subrange(x, a.entries@.len() as int),
        if a.children@.len() == 0 {
            b.children@.len() == 0
        } else {
            b.children@ == a.children@.subrange(x, a.children@.len() as int)
        },
    ensures
        bseq(b) == bseq_from(a, x),
{
    lemma_bseq_skip_from(a, b, x, 0);
}

proof fn lemma_bseq_skip_from(a: BNode, b: BNode, x: int, j: int)
    requires
        0 <= x <= a.entries@.len(),
        a.children@.len() == 0 || a.children@.len() == a.entries@.len() + 1,
        b.entries@ == a.entries@.subrange(x, a.entries@.len() as int),
        if a.children@.len() == 0 {
            b.children@.len() == 0
        } else {
            b.children@ == a.children@.subrange(x, a.children@.len() as int)
        },
        0 <= j <= b.entries@.len(),
    ensures
        bseq_from(b, j) == bseq_from(a, x + j),
    decreases b.entries@.len() - j + 1,
{
    if j == b.entries@.len() {
        if a.children@.len() == 0 {
            assert(bseq_from(b, j) =~= bseq_from(a, x + j));
        } else {
            assert(b.children@[j] == a.children@[x + j]);
            assert(bseq_from(b, j) == bseq_from(b.children@[j], 0));
            assert(bseq_from(a, x + j) == bseq_from(a.children@[x + j], 0));
        }
    } else {
        lemma_bseq_skip_from(a, b, x, j + 1);
        assert(b.entries@[j] == a.entries@[x + j]);
        if a.children@.len() == 0 {
            assert(bseq_from(b, j) == seq![b.entries@[j]] + bseq_from(b, j + 1)) by {
                assert(bseq_from(b, j) =~= Seq::empty() + seq![b.entries@[j]] + bseq_from(
                    b,
                    j + 1,
                ));
            }
            assert(bseq_from(a, x + j) =~= Seq::empty() + seq![a.entries@[x + j]] + bseq_from(
                a,
                x + j + 1,
            ));
            assert(bseq_from(b, j) =~= bseq_from(a, x + j));
        } else {
            assert(b.children@[j] == a.children@[x + j]);
            assert(bseq_from(b, j) == bseq_from(b.children@[j], 0) + seq![b.entries@[j]]
                + bseq_from(b, j + 1));
            assert(bseq_from(a, x + j) == bseq_from(a.children@[x + j], 0) + seq![
                a.entries@[x + j],
            ] + bseq_from(a, x + j + 1));
        }
    }
}

/// Two nodes whose entries and children agree from aligned positions on
/// store the same pairs from there on.
proof fn lemma_bseq_from_align(a: BNode, b: BNode, i: int, off: int)
    requires
        0 <= i <= b.entries@.len(),
        0 <= i + off,
        b.entries@.len() - i == a.entries@.len() - (i + off),
        forall|t: int| i <= t < b.entries@.len() ==> b.entries@[t] == a.entries@[t + off],
        (b.children@.len() == 0 && a.children@.len() == 0) || (b.children@.len()
            == b.entries@.len() + 1 && a.children@.len() == a.entries@.len() + 1 && forall|t: int|
            i <= t < b.children@.len() ==> b.children@[t] == a.children@[t + off]),
    ensures
        bseq_from(b, i) == bseq_from(a, i + off),
    decreases b.entries@.len() - i + 1,
{
    if i == b.entries@.len() {
        if a.children@.len() == 0 {
            assert(bseq_from(b, i) =~= bseq_from(a, i + off));
        } else {
            assert(b.children@[i] == a.children@[i + off]);
        }
    } else {
        lemma_bseq_from_align(a, b, i + 1, off);
        assert(b.entries@[i] == a.entries@[i + off]);
        if a.children@.len() == 0 {
            assert(bseq_from(b, i) =~= Seq::empty() + seq![b.entries@[i]] + bseq_from(b, i + 1));
            assert(bseq_from(a, i + off) =~= Seq::empty() + seq![a.entries@[i + off]] + bseq_from(
                a,
                i + off + 1,
            ));
        } else {
            assert(b.children@[i] == a.children@[i + off]);
        }
    }
}

/// Widening the admissible key range keeps a subtree well-formed.
proof fn lemma_bwf_sub_widen(n: BNode, lo: int, hi: int, lo2: int, hi2: int, m: int)
    requires
        bwf_sub(n, lo, hi, m),
        lo2 <= lo,
        hi <= hi2,
    ensures
        bwf_sub(n, lo2, hi2, m),
    decreases n,
{
    let e = n.entries@;
    let c = n.children@;
    assert forall|i: int|
        0 <= i < c.len() implies bwf_sub(#[trigger] c[i], clo(e, lo2, i), chi(e, hi2, i), m) by {
        assert(bwf_sub(c[i], clo(e, lo, i), chi(e, hi, i), m));
        lemma_bwf_sub_widen(c[i], clo(e, lo, i), chi(e, hi, i), clo(e, lo2, i), chi(e, hi2, i), m);
    }
}

/// The invariant of a node that may transiently hold too many entries,
/// as one does between receiving a split child's median and splitting.
spec fn bwf_loose(n: BNode, lo: int, hi: int, m: int) -> bool {
    let e = n.entries@;
    let c = n.children@;
    &&& (forall|i: int| 0 <= i < e.len() ==> lo < (#[trigger] e[i]).0 < hi)
    &&& (forall|i: int, j: int| 0 <= i < j < e.len() ==> e[i].0 < e[j].0)
    &&& (c.len() == 0 || c.len() == e.len() + 1)
    &&& (forall|i: int|
        0 <= i < c.len() ==> bwf_sub(#[trigger] c[i], clo(e, lo, i), chi(e, hi, i), m))
    &&& (forall|i: int| 0 <= i < c.len() ==> (#[trigger] c[i]).entries@.len() >= lo_occ(m))
    &&& (forall|i: int| 0 <= i < c.len() ==> bdepth(#[trigger] c[i]) + 1 == bdepth(n))
}

proof fn lemma_loose(n: BNode, lo: int, hi: int, m: int)
    ensures
        bwf_sub(n, lo, hi, m) <==> (bwf_loose(n, lo, hi, m) && n.entries@.len() <= hi_occ(m)),
{
}

/// The pairs of the subtree from entry `j` onward, the pairs of child `j`
/// excluded: the part of the node that a search at child `j` leaves on
/// the right.
spec fn tailseq(n: BNode, j: int) -> Seq<(u64, u64)> {
    if j < n.entries@.len() {
        seq![n.entries@[j]] + bseq_from(n, j + 1)
    } else {
        Seq::empty()
    }
}

/// A search that narrowed to child `j` sees the subtree's pairs fall into
/// three runs: the pairs before the child, the child's own, and the rest;
/// the key searched for can only sit in the child's run.
proof fn lemma_node_window(n: BNode, lo: int, hi: int, m: int, j: int, k: u64)
    requires
        bwf_loose(n, lo, hi, m),
        0 <= j <= n.entries@.len(),
        clo(n.entries@, lo, j) < k < chi(n.entries@, hi, j),
    ensures
        bseq(n) == bpre(n, j) + childseq(n, j) + tailseq(n, j),
        ssorted(bseq(n)),
        keys_below(bpre(n, j), k),
        keys_above(tailseq(n, j), k),
    decreases 0int,
{
    let e = n.entries@;
    let s = bseq(n);
    let p = bpre(n, j);
    let c = childseq(n, j);
    let t = tailseq(n, j);
    lemma_bseq_from_props(n, lo, hi, m, 0);
    lemma_bseq_decomp(n, j);
    assert(bseq_from(n, j) == c + t) by {
        if j < e.len() {
            if n.children@.len() == e.len() + 1 {
                assert(bseq_from(n, j) == bseq_from(n.children@[j], 0) + seq![e[j]] + bseq_from(
                    n,
                    j + 1,
                ));
                assert(bseq_from(n, j) =~= c + t);
            } else {
                assert(bseq_from(n, j) =~= c + t);
            }
        } else {
            assert(bseq_from(n, j) =~= c + t);
        }
    }
    assert(s == p + c + t) by {
        assert(s =~= p + c + t);
    }
    if j > 0 {
        assert(p[p.len() - 1] == e[j - 1]) by {
            assert(p == bpre(n, j - 1) + childseq(n, j - 1) + seq![e[j - 1]]);
        }
    }
    assert forall|i: int| 0 <= i < p.len() implies (#[trigger] p[i]).0 < k by {
        assert(s[i] == p[i]);
        if i < p.len() - 1 {
            assert(s[i].0 < s[p.len() - 1].0);
        }
    }
    assert forall|i: int| 0 <= i < t.len() implies (#[trigger] t[i]).0 > k by {
        assert(s[p.len() + c.len() + i] == t[i]);
        assert(j < e.len());
        assert(t[0] == e[j]);
        if i > 0 {
            assert(s[(p.len() + c.len()) as int].0 < s[p.len() + c.len() + i].0);
        }
    }
}

/// A search that stopped at entry `j` sees the subtree's pairs fall into
/// everything before that entry, the entry itself, and everything after.
proof fn lemma_entry_window(n: BNode, lo: int, hi: int, m: int, j: int)
    requires
        bwf_loose(n, lo, hi, m),
        0 <= j < n.entries@.len(),
    ensures
        bseq(n) == (bpre(n, j) + childseq(n, j)) + seq![n.entries@[j]] + bseq_from(n, j + 1),
        ssorted(bseq(n)),
        keys_below(bpre(n, j) + childseq(n, j), n.entries@[j].0),
        keys_above(bseq_from(n, j + 1), n.entries@[j].0),
        (bpre(n, j) + childseq(n, j)).len() + 1 + bseq_from(n, j + 1).len() == bseq(n).len(),
{
    let e = n.entries@;
    let s = bseq(n);
    let p = bpre(n, j) + childseq(n, j);
    let t = bseq_from(n, j + 1);
    lemma_bseq_from_props(n, lo, hi, m, 0);
    lemma_bseq_decomp(n, j);
    assert(bseq_from(n, j) == childseq(n, j) + seq![e[j]] + t) by {
        if n.children@.len() == e.len() + 1 {
            assert(bseq_from(n, j) == bseq_from(n.children@[j], 0) + seq![e[j]] + t);
        } else {
            assert(bseq_from(n, j) =~= childseq(n, j) + seq![e[j]] + t);
        }
    }
    assert(s == p + seq![e[j]] + t) by {
        assert(s =~= p + seq![e[j]] + t);
    }
    assert(s[p.len() as int] == e[j]);
    assert forall|i: int| 0 <= i < p.len() implies (#[trigger] p[i]).0 < e[j].0 by {
        assert(s[i] == p[i]);
        assert(s[i].0 < s[p.len() as int].0);
    }
    assert forall|i: int| 0 <= i < t.len() implies (#[trigger] t[i]).0 > e[j].0 by {
        assert(s[p.len() + 1 + i] == t[i]);
        assert(s[p.len() as int].0 < s[p.len() + 1 + i].0);
    }
}

/// The position of the first entry whose key is not below `k`.
fn seek(entries: &Vec<(u64, u64)>, k: u64) -> (j: usize)
    ensures
        j <= entries@.len(),
        forall|i: int| 0 <= i < j ==> (#[trigger] entries@[i]).0 < k,
        j < entries@.len() ==> entries@[j as int].0 >= k,
{
    let mut j: usize = 0;
    let n = entries.len();
    while j < n
        invariant
            j <= n,
            n == entries@.len(),
            forall|i: int| 0 <= i < j ==> (#[trigger] entries@[i]).0 < k,
        decreases n - j,
    {
        if entries[j].0 >= k {
            return j;
        }
        j = j + 1;
    }
    j
}

/// Splits an overfull node at the occupancy point: the entries below it
/// stay, the entry at it is promoted, and the rest move to a fresh right
/// sibling; the stored pairs and their order never change.
#[verifier::rlimit(100)]
fn bsplit(n: BNode, maxk: usize, mink: usize, Ghost(lo): Ghost<int>, Ghost(hi): Ghost<int>) -> (r:
    (BNode, (u64, u64), BNode))
    requires
        maxk >= 3,
        mink == maxk / 2,
        bwf_loose(n, lo, hi, maxk as int),
        maxk <= n.entries@.len(),
        n.entries@.len() <= hi_occ(maxk as int) + mink,
    ensures
        bwf(r.0, lo, r.1.0 as int, maxk as int),
        bwf(r.2, r.1.0 as int, hi, maxk as int),
        r.0.entries@.len() >= lo_occ(maxk as int),
        r.2.entries@.len() >= lo_occ(maxk as int),
        bseq(r.0) + seq![r.1] + bseq(r.2) == bseq(n),
        lo < r.1.0 < hi,
        bdepth(r.0) == bdepth(n),
        bdepth(r.2) == bdepth(n),
{
    let ghost orig = n;
    let mut n = n;
    let re = n.entries.split_off(mink + 1);
    let med = n.entries.pop().unwrap();
    let rc = if n.children.len() > 0 {
        n.children.split_off(mink + 1)
    } else {
        Vec::new()
    };
    let right = BNode { entries: re, children: rc };
    let ghost x = mink as int;
    proof {
        let m = maxk as int;
        let e = orig.entries@;
        let c = orig.children@;
        assert(med == e[x]);
        assert(n.entries@ =~= e.subrange(0, x));
        assert(right.entries@ =~= e.subrange(x + 1, e.len() as int));
        if c.len() > 0 {
            assert(n.children@ =~= c.subrange(0, x + 1));
            assert(right.children@ =~= c.subrange(x + 1, c.len() as int));
        }
        // The pairs are preserved: left, median, right re-assemble.
        lemma_bseq_take(orig, n, x);
        lemma_bseq_skip(orig, right, x + 1);
        lemma_bseq_decomp(orig, x);
        assert(bseq_from(orig, x) == childseq(orig, x) + seq![e[x]] + bseq_from(orig, x + 1)) by {
            if c.len() > 0 {
                assert(bseq_from(orig, x) == bseq_from(c[x], 0) + seq![e[x]] + bseq_from(
                    orig,
                    x + 1,
                ));
            } else {
                assert(bseq_from(orig, x) =~= childseq(orig, x) + seq![e[x]] + bseq_from(
                    orig,
                    x + 1,
                ));
            }
        }
        assert(bseq(n) + seq![med] + bseq(right) =~= bseq(orig));
        // The left half is well-formed below the median.
        assert(bwf(n, lo, med.0 as int, m)) by {
            assert(n.entries@.len() == x);
            assert(forall|i: int| 0 <= i < x ==> n.entries@[i] == e[i]);
            assert forall|i: int| 0 <= i < n.children@.len() implies bwf_sub(
                #[trigger] n.children@[i],
                clo(n.entries@, lo, i),
                chi(n.entries@, med.0 as int, i),
                m,
            ) by {
                assert(n.children@[i] == c[i]);
                assert(bwf_sub(c[i], clo(e, lo, i), chi(e, hi, i), m));
                assert(clo(n.entries@, lo, i) == clo(e, lo, i));
                assert(chi(n.entries@, med.0 as int, i) == chi(e, hi, i));
            }
            assert forall|i: int|
                0 <= i < n.children@.len() implies bdepth(#[trigger] n.children@[i]) + 1 == bdepth(
                n,
            ) by {
                assert(n.children@[i] == c[i]);
                assert(bdepth(n.children@[0]) == bdepth(c[0]));
            }
        }
        // The right half is well-formed above the median.
        assert(bwf(right, med.0 as int, hi, m)) by {
            assert(forall|i: int|
                0 <= i < right.entries@.len() ==> right.entries@[i] == e[x + 1 + i]);
            assert forall|i: int| 0 <= i < right.children@.len() implies bwf_sub(
                #[trigger] right.children@[i],
                clo(right.entries@, med.0 as int, i),
                chi(right.entries@, hi, i),
                m,
            ) by {
                assert(right.children@[i] == c[x + 1 + i]);
                assert(bwf_sub(c[x + 1 + i], clo(e, lo, x + 1 + i), chi(e, hi, x + 1 + i), m));
                assert(clo(right.entries@, med.0 as int, i) == clo(e, lo, x + 1 + i));
                assert(chi(right.entries@, hi, i) == chi(e, hi, x + 1 + i));
            }
            assert forall|i: int|
                0 <= i < right.children@.len() implies bdepth(#[trigger] right.children@[i]) + 1
                == bdepth(right) by {
                assert(right.children@[i] == c[x + 1 + i]);
                assert(bdepth(right.children@[0]) == bdepth(c[x + 1]));
            }
        }
        assert(bdepth(n) == bdepth(orig)) by {
            if c.len() > 0 {
                assert(n.children@[0] == c[0]);
            }
        }
        assert(bdepth(right) == bdepth(orig)) by {
            if c.len() > 0 {
                assert(right.children@[0] == c[x + 1]);
                assert(bdepth(c[x + 1]) + 1 == bdepth(orig));
            }
        }
    }
    (n, med, right)
}

/// Overwriting the value at entry `x` of a node: shape facts and the pair
/// sequence with the entry's pair replaced.
proof fn lemma_rebuild_overwrite(a: BNode, b: BNode, x: int, m: int, lo: int, hi: int, v: u64)
    requires
        bwf_loose(a, lo, hi, m),
        0 <= x < a.entries@.len(),
        b.entries@ == a.entries@.update(x, (a.entries@[x].0, v)),
        b.children@ == a.children@,
    ensures
        bwf_loose(b, lo, hi, m),
        b.entries@.len() == a.entries@.len(),
        bseq(b) == (bpre(a, x) + childseq(a, x)) + seq![(a.entries@[x].0, v)] + bseq_from(
            a,
            x + 1,
        ),
        bdepth(b) == bdepth(a),
    decreases 0int,
{
    let e = a.entries@;
    let k = e[x].0;
    assert(bdepth(b) == bdepth(a)) by {
        if a.children@.len() > 0 {
            assert(b.children@[0] == a.children@[0]);
        }
    }
    assert(bwf_loose(b, lo, hi, m)) by {
        assert(forall|i: int| 0 <= i < b.entries@.len() ==> (#[trigger] b.entries@[i]).0 == e[i].0);
        assert forall|i: int| 0 <= i < b.children@.len() implies bwf_sub(
            #[trigger] b.children@[i],
            clo(b.entries@, lo, i),
            chi(b.entries@, hi, i),
            m,
        ) by {
            assert(bwf_sub(a.children@[i], clo(e, lo, i), chi(e, hi, i), m));
            assert(clo(b.entries@, lo, i) == clo(e, lo, i));
            assert(chi(b.entries@, hi, i) == chi(e, hi, i));
        }
        assert forall|i: int|
            0 <= i < b.children@.len() implies bdepth(#[trigger] b.children@[i]) + 1 == bdepth(
            b,
        ) by {
            assert(bdepth(a.children@[i]) + 1 == bdepth(a));
        }
    }
    assert forall|i: int| 0 <= i < x implies childseq(a, i) == childseq(b, i) by {
        if a.children@.len() > 0 {
            assert(b.children@[i] == a.children@[i]);
        }
    }
    lemma_bpre_entries_eq(a, b, x);
    lemma_bseq_decomp(b, x);
    assert(childseq(b, x) == childseq(a, x)) by {
        if a.children@.len() > 0 {
            assert(b.children@[x] == a.children@[x]);
        }
    }
    assert(bseq_from(b, x) == childseq(a, x) + seq![(k, v)] + bseq_from(a, x + 1)) by {
        lemma_bseq_from_align(a, b, x + 1, 0);
        assert(b.entries@[x] == (k, v));
        if a.children@.len() > 0 {
            assert(bseq_from(b, x) == bseq_from(b.children@[x], 0) + seq![(k, v)] + bseq_from(
                b,
                x + 1,
            ));
        } else {
            assert(bseq_from(b, x) =~= childseq(b, x) + seq![(k, v)] + bseq_from(b, x + 1));
        }
    }
    assert(bseq(b) =~= (bpre(a, x) + childseq(a, x)) + seq![(k, v)] + bseq_from(a, x + 1));
}

/// Inserting a fresh pair into a leaf at its sorted position: shape facts
/// and the pair sequence with the new pair in place.
#[verifier::rlimit(100)]
proof fn lemma_leaf_insert(a: BNode, b: BNode, x: int, m: int, lo: int, hi: int, k: u64, v: u64)
    requires
        bwf_loose(a, lo, hi, m),
        a.children@.len() == 0,
        b.children@.len() == 0,
        0 <= x <= a.entries@.len(),
        b.entries@ == a.entries@.insert(x, (k, v)),
        forall|i: int| 0 <= i < x ==> (#[trigger] a.entries@[i]).0 < k,
        x < a.entries@.len() ==> a.entries@[x].0 > k,
        lo < k < hi,
    ensures
        b.entries@.len() == a.entries@.len() + 1,
        bseq(b) == sorted_insert(bseq(a), k, v),
        !has_key(bseq(a), k),
        bdepth(b) == 0,
        ssorted(b.entries@),
        forall|i: int| 0 <= i < b.entries@.len() ==> lo < (#[trigger] b.entries@[i]).0 < hi,
    decreases 0int,
{
    let e = a.entries@;
    let eb = b.entries@;
    lemma_bseq_leaf_from(a, 0);
    assert(bseq(a) == e.skip(0));
    assert(e.skip(0) =~= e);
    lemma_bseq_leaf_from(b, 0);
    assert(bseq(b) == eb.skip(0));
    assert(eb.skip(0) =~= eb);
    lemma_node_window(a, lo, hi, m, x, k);
    lemma_bpre_leaf(a, x);
    assert(childseq(a, x) =~= Seq::<(u64, u64)>::empty());
    assert(tailseq(a, x) =~= e.skip(x)) by {
        if x < e.len() {
            lemma_bseq_leaf_from(a, x + 1);
        }
    }
    assert(bseq(a) == e.subrange(0, x) + Seq::<(u64, u64)>::empty() + e.skip(x)) by {
        assert(bseq(a) =~= e.subrange(0, x) + Seq::<(u64, u64)>::empty() + e.skip(x));
    }
    lemma_window(e.subrange(0, x), Seq::empty(), e.skip(x), k, v);
    assert(sorted_insert(Seq::<(u64, u64)>::empty(), k, v) == seq![(k, v)]);
    assert(!has_key(Seq::<(u64, u64)>::empty(), k));
    assert(eb =~= e.subrange(0, x) + seq![(k, v)] + e.skip(x));
    assert(bseq(b) == sorted_insert(bseq(a), k, v));
    assert forall|i: int, t: int| 0 <= i < t < eb.len() implies eb[i].0 < eb[t].0 by {
        if t < x {
            assert(eb[i] == e[i] && eb[t] == e[t]);
        } else if i > x {
            assert(eb[i] == e[i - 1] && eb[t] == e[t - 1]);
        } else if i == x {
            assert(eb[t] == e[t - 1]);
            assert(e[x].0 <= e[t - 1].0);
        } else if t == x {
            assert(eb[i] == e[i]);
        } else {
            assert(eb[i] == e[i] && eb[t] == e[t - 1]);
            assert(e[x].0 <= e[t - 1].0);
            assert(e[i].0 < k);
            assert(k < e[x].0);
        }
    }
    assert forall|i: int| 0 <= i < eb.len() implies lo < (#[trigger] eb[i]).0 < hi by {
        if i < x {
            assert(eb[i] == e[i]);
        } else if i > x {
            assert(eb[i] == e[i - 1]);
        }
    }
}

/// Inserts or overwrites a pair in a well-formed subtree: the search
/// descends to the node that owns the key's window, and a node that grows
/// to the configured order splits, handing its median and its new right
/// sibling upward. Reports whether the tree grew.
#[verifier::rlimit(100)]
fn binsert(
    n: BNode,
    k: u64,
    v: u64,
    maxk: usize,
    mink: usize,
    Ghost(lo): Ghost<int>,
    Ghost(hi): Ghost<int>,
) -> (r: (BNode, bool, Option<((u64, u64), Box<BNode>)>))
    requires
        maxk >= 3,
        mink == maxk / 2,
        bwf(n, lo, hi, maxk as int),
        lo < k < hi,
    ensures
        r.2 is None ==> bwf(r.0, lo, hi, maxk as int) && bseq(r.0) == sorted_insert(
            bseq(n),
            k,
            v,
        ) && r.0.entries@.len() >= n.entries@.len() && bdepth(r.0) == bdepth(n),
        r.2 matches Some(sp) ==> bwf(r.0, lo, sp.0.0 as int, maxk as int) && bwf(
            *sp.1,
            sp.0.0 as int,
            hi,
            maxk as int,
        ) && r.0.entries@.len() >= lo_occ(maxk as int) && sp.1.entries@.len() >= lo_occ(
            maxk as int,
        ) && bseq(r.0) + seq![sp.0] + bseq(*sp.1) == sorted_insert(bseq(n), k, v) && lo < sp.0.0
            < hi && bdepth(r.0) == bdepth(n) && bdepth(*sp.1) == bdepth(n),
        r.1 == !has_key(bseq(n), k),
    decreases n,
{
    let ghost m = maxk as int;
    let ghost orig = n;
    let ghost e = n.entries@;
    let mut n = n;
    let j = seek(&n.entries, k);
    let ghost jj = j as int;
    proof {
        lemma_loose(orig, lo, hi, m);
    }
    let added: bool;
    if j < n.entries.len() && n.entries[j].0 == k {
        // The key lives here: overwrite its value in place.
        let _ = n.entries.remove(j);
        n.entries.insert(j, (k, v));
        added = false;
        proof {
            assert(n.entries@ =~= e.update(jj, (k, v)));
            lemma_rebuild_overwrite(orig, n, jj, m, lo, hi, v);
            lemma_entry_window(orig, lo, hi, m, jj);
            let p = bpre(orig, jj) + childseq(orig, jj);
            let t = bseq_from(orig, jj + 1);
            lemma_window(p, seq![e[jj]], t, k, v);
            assert(has_key(seq![e[jj]], k)) by {
                assert(seq![e[jj]][0].0 == k);
            }
            assert(has_key(bseq(orig), k));
            assert(sorted_insert(seq![e[jj]], k, v) =~= seq![(k, v)]);
            assert(bseq(n) == sorted_insert(bseq(orig), k, v)) by {
                assert(bseq(n) =~= p + seq![(k, v)] + t);
            }
            lemma_loose(n, lo, hi, m);
        }
    } else if n.children.len() == 0 {
        // A leaf that lacks the key: the new pair lands at its position.
        n.entries.insert(j, (k, v));
        added = true;
        proof {
            assert(n.children@.len() == 0);
            assert(jj < e.len() ==> e[jj].0 > k) by {
                if jj < e.len() {
                    assert(e[jj].0 >= k && e[jj].0 != k);
                }
            }
            lemma_leaf_insert(orig, n, jj, m, lo, hi, k, v);
            assert(bwf_loose(n, lo, hi, m));
        }
    } else {
        // An internal node: the key belongs to the window of child `j`.
        proof {
            assert(clo(e, lo, jj) < k < chi(e, hi, jj)) by {
                if jj < e.len() {
                    assert(e[jj].0 >= k && e[jj].0 != k);
                }
            }
            lemma_node_window(orig, lo, hi, m, jj, k);
            lemma_window(bpre(orig, jj), childseq(orig, jj), tailseq(orig, jj), k, v);
        }
        let child = n.children.remove(j);
        proof {
            assert(child == orig.children@[jj]);
            assert(bwf(child, clo(e, lo, jj), chi(e, hi, jj), m)) by {
                assert(bwf_sub(orig.children@[jj], clo(e, lo, jj), chi(e, hi, jj), m));
                assert(orig.children@[jj].entries@.len() >= lo_occ(m));
                assert(lo_occ(m) >= 1);
            }
        }
        let ghost ccnt = child.entries@.len();
        let (child2, did_add, sp) = binsert(
            child,
            k,
            v,
            maxk,
            mink,
            Ghost(clo(e, lo, jj)),
            Ghost(chi(e, hi, jj)),
        );
        added = did_add;
        match sp {
            None => {
                n.children.insert(j, child2);
                proof {
                    assert(n.entries@ == e);
                    assert(n.children@ =~= orig.children@.update(jj, child2));
                    assert(child2.entries@.len() >= lo_occ(m)) by {
                        assert(child2.entries@.len() >= ccnt);
                    }
                    lemma_rebuild_one_child(orig, n, jj, m, lo, hi);
                    assert(bseq(n) =~= bpre(orig, jj) + sorted_insert(childseq(orig, jj), k, v)
                        + tailseq(orig, jj));
                    assert(bseq(n) == sorted_insert(bseq(orig), k, v));
                }
            }
            Some((med, rb)) => {
                n.children.insert(j, child2);
                n.entries.insert(j, med);
                n.children.insert(j + 1, *rb);
                proof {
                    assert(n.entries@ =~= e.insert(jj, med));
                    assert(n.children@ =~= orig.children@.update(jj, child2).insert(jj + 1, *rb));
                    lemma_rebuild_split_child(orig, n, jj, m, lo, hi, med, *rb, child2);
                    assert(bseq(n) =~= bpre(orig, jj) + (bseq(child2) + seq![med] + bseq(*rb))
                        + tailseq(orig, jj));
                    assert(bseq(n) == sorted_insert(bseq(orig), k, v));
                }
            }
        }
    }
    // Split when the node has grown to the configured order.
    if n.entries.len() >= maxk {
        let (left, med, right) = bsplit(n, maxk, mink, Ghost(lo), Ghost(hi));
        (left, added, Some((med, Box::new(right))))
    } else {
        proof {
            lemma_loose(n, lo, hi, m);
        }
        (n, added, None)
    }
}

/// Everything before entry `i` agrees between two nodes with equal entries
/// below `i` and equal children up to `i`.
proof fn lemma_bpre_entries_eq(a: BNode, b: BNode, x: int)
    requires
        0 <= x <= a.entries@.len(),
        x <= b.entries@.len(),
        forall|i: int| 0 <= i < x ==> a.entries@[i] == b.entries@[i],
        forall|i: int| 0 <= i < x ==> childseq(a, i) == childseq(b, i),
    ensures
        bpre(b, x) == bpre(a, x),
    decreases x,
{
    if x > 0 {
        lemma_bpre_entries_eq(a, b, x - 1);
    }
}

/// Rebuilding a node with one child replaced: shape facts and the pair
/// sequence with the new child's pairs in the old child's place. Whether
/// the whole node keeps its invariant depends on how full the new child
/// is.
proof fn lemma_rebuild_one_child(a: BNode, b: BNode, x: int, m: int, lo: int, hi: int)
    requires
        bwf_loose(a, lo, hi, m),
        a.children@.len() == a.entries@.len() + 1,
        0 <= x <= a.entries@.len(),
        b.entries@ == a.entries@,
        b.children@ == a.children@.update(x, b.children@[x]),
        bwf_sub(b.children@[x], clo(a.entries@, lo, x), chi(a.entries@, hi, x), m),
        bdepth(b.children@[x]) == bdepth(a.children@[x]),
    ensures
        b.children@[x].entries@.len() >= lo_occ(m) ==> bwf_loose(b, lo, hi, m),
        (b.children@[x].entries@.len() >= lo_occ(m) - 1 && a.entries@.len() <= hi_occ(m))
            ==> bwf_except(b, lo, hi, m, x),
        b.entries@.len() == a.entries@.len(),
        bseq(b) == bpre(a, x) + bseq(b.children@[x]) + tailseq(a, x),
        bdepth(b) == bdepth(a),
{
    let e = a.entries@;
    assert(bdepth(b) == bdepth(a)) by {
        if x == 0 {
            assert(bdepth(b.children@[0]) == bdepth(a.children@[0]));
        } else {
            assert(b.children@[0] == a.children@[0]);
        }
    }
    assert forall|i: int| 0 <= i < b.children@.len() implies bwf_sub(
        #[trigger] b.children@[i],
        clo(e, lo, i),
        chi(e, hi, i),
        m,
    ) by {
        if i != x {
            assert(b.children@[i] == a.children@[i]);
        }
    }
    assert forall|i: int|
        0 <= i < b.children@.len() && i != x implies (#[trigger] b.children@[i]).entries@.len()
        >= lo_occ(m) by {
        assert(b.children@[i] == a.children@[i]);
    }
    assert forall|i: int|
        0 <= i < b.children@.len() implies bdepth(#[trigger] b.children@[i]) + 1 == bdepth(b) by {
        if i != x {
            assert(b.children@[i] == a.children@[i]);
        } else {
            assert(bdepth(b.children@[x]) == bdepth(a.children@[x]));
        }
    }
    assert forall|i: int| 0 <= i < x implies childseq(a, i) == childseq(b, i) by {
        assert(b.children@[i] == a.children@[i]);
    }
    lemma_bpre_entries_eq(a, b, x);
    lemma_bseq_decomp(b, x);
    assert(bseq_from(b, x) == bseq(b.children@[x]) + tailseq(a, x)) by {
        if x < e.len() {
            lemma_bseq_from_align(a, b, x + 1, 0);
            assert(bseq_from(b, x) == bseq_from(b.children@[x], 0) + seq![e[x]] + bseq_from(
                b,
                x + 1,
            ));
            assert(bseq_from(b, x) =~= bseq(b.children@[x]) + (seq![e[x]] + bseq_from(a, x + 1)));
        } else {
            assert(bseq_from(b, x) == bseq_from(b.children@[x], 0));
            assert(bseq_from(b, x) =~= bseq(b.children@[x]) + tailseq(a, x));
        }
    }
}

/// Rebuilding a node after child `x` split into a left half, a promoted
/// median and a right half: shape facts and the pair sequence.
#[verifier::rlimit(100)]
proof fn lemma_rebuild_split_child(
    a: BNode,
    b: BNode,
    x: int,
    m: int,
    lo: int,
    hi: int,
    med: (u64, u64),
    rn: BNode,
    ln: BNode,
)
    requires
        bwf_loose(a, lo, hi, m),
        a.children@.len() == a.entries@.len() + 1,
        0 <= x <= a.entries@.len(),
        clo(a.entries@, lo, x) < med.0 < chi(a.entries@, hi, x),
        b.entries@ == a.entries@.insert(x, med),
        b.children@ == a.children@.update(x, ln).insert(x + 1, rn),
        bwf(ln, clo(a.entries@, lo, x), med.0 as int, m),
        bwf(rn, med.0 as int, chi(a.entries@, hi, x), m),
        ln.entries@.len() >= lo_occ(m),
        rn.entries@.len() >= lo_occ(m),
        bdepth(ln) == bdepth(a.children@[x]),
        bdepth(rn) == bdepth(a.children@[x]),
    ensures
        bwf_loose(b, lo, hi, m),
        b.entries@.len() == a.entries@.len() + 1,
        bseq(b) == bpre(a, x) + (bseq(ln) + seq![med] + bseq(rn)) + tailseq(a, x),
        bdepth(b) == bdepth(a),
{
    let e = a.entries@;
    let eb = b.entries@;
    assert(b.children@.len() == b.entries@.len() + 1);
    assert(b.children@[x] == ln);
    assert(b.children@[x + 1] == rn);
    assert(forall|i: int| 0 <= i < x ==> b.children@[i] == a.children@[i]);
    assert(forall|i: int| x + 1 < i < b.children@.len() ==> b.children@[i] == a.children@[i - 1]);
    assert(forall|i: int| 0 <= i < x ==> eb[i] == e[i]);
    assert(eb[x] == med);
    assert(forall|i: int| x < i < eb.len() ==> eb[i] == e[i - 1]);
    assert(bdepth(b) == bdepth(a)) by {
        if x == 0 {
            assert(b.children@[0] == ln);
            assert(bdepth(ln) == bdepth(a.children@[0]));
        } else {
            assert(b.children@[0] == a.children@[0]);
        }
    }
    assert(bwf_loose(b, lo, hi, m)) by {
        assert forall|i: int, t: int| 0 <= i < t < eb.len() implies eb[i].0 < eb[t].0 by {
            if t < x {
            } else if i < x && t == x {
                assert((eb[i].0 as int) <= clo(e, lo, x));
            } else if i < x && t > x {
            } else if i == x && t > x {
                assert((eb[t].0 as int) >= chi(e, hi, x) || eb[t].0 == e[t - 1].0);
                assert((med.0 as int) < chi(e, hi, x));
                if x < e.len() {
                    assert(e[x].0 <= e[t - 1].0);
                }
            } else {
            }
        }
        assert forall|i: int| 0 <= i < eb.len() implies lo < (#[trigger] eb[i]).0 < hi by {
            if i == x {
                assert(clo(e, lo, x) >= lo);
                assert(chi(e, hi, x) <= hi);
            }
        }
        assert forall|i: int| 0 <= i < b.children@.len() implies bwf_sub(
            #[trigger] b.children@[i],
            clo(eb, lo, i),
            chi(eb, hi, i),
            m,
        ) by {
            if i < x {
                assert(b.children@[i] == a.children@[i]);
                assert(clo(eb, lo, i) == clo(e, lo, i));
                assert(chi(eb, hi, i) == chi(e, hi, i));
            } else if i == x {
                assert(clo(eb, lo, x) == clo(e, lo, x));
                assert(chi(eb, hi, x) == med.0 as int);
            } else if i == x + 1 {
                assert(clo(eb, lo, x + 1) == med.0 as int);
                assert(chi(eb, hi, x + 1) == chi(e, hi, x));
            } else {
                assert(b.children@[i] == a.children@[i - 1]);
                assert(clo(eb, lo, i) == clo(e, lo, i - 1));
                assert(chi(eb, hi, i) == chi(e, hi, i - 1));
            }
        }
        assert forall|i: int|
            0 <= i < b.children@.len() implies (#[trigger] b.children@[i]).entries@.len()
            >= lo_occ(m) by {
            if i < x {
                assert(b.children@[i] == a.children@[i]);
            } else if i > x + 1 {
                assert(b.children@[i] == a.children@[i - 1]);
            }
        }
        assert forall|i: int|
            0 <= i < b.children@.len() implies bdepth(#[trigger] b.children@[i]) + 1 == bdepth(
            b,
        ) by {
            if i < x {
                assert(b.children@[i] == a.children@[i]);
            } else if i > x + 1 {
                assert(b.children@[i] == a.children@[i - 1]);
            } else {
                assert(bdepth(a.children@[x]) + 1 == bdepth(a));
            }
        }
    }
    assert forall|i: int| 0 <= i < x implies childseq(a, i) == childseq(b, i) by {
        assert(b.children@[i] == a.children@[i]);
    }
    lemma_bpre_entries_eq(a, b, x);
    lemma_bseq_decomp(b, x);
    assert(bseq_from(b, x) == bseq(ln) + seq![med] + bseq_from(b, x + 1));
    assert(bseq_from(b, x + 1) == bseq(rn) + tailseq(a, x)) by {
        if x < e.len() {
            lemma_bseq_from_align(a, b, x + 2, -1);
            assert(eb[x + 1] == e[x]);
            assert(bseq_from(b, x + 1) == bseq_from(rn, 0) + seq![eb[x + 1]] + bseq_from(
                b,
                x + 2,
            ));
            assert(bseq_from(b, x + 1) =~= bseq(rn) + (seq![e[x]] + bseq_from(a, x + 1)));
        } else {
            assert(x + 1 == eb.len());
            assert(bseq_from(b, x + 1) == bseq_from(rn, 0));
            assert(bseq_from(b, x + 1) =~= bseq(rn) + tailseq(a, x));
        }
    }
    assert(bseq(b) =~= bpre(a, x) + (bseq(ln) + seq![med] + bseq(rn)) + tailseq(a, x));
}

/// A well-formed subtree all of whose keys lie inside a narrower window
/// is well-formed for that window too.
#[verifier::rlimit(100)]
proof fn lemma_bwf_narrow(n: BNode, lo: int, hi: int, lo2: int, hi2: int, m: int)
    requires
        bwf_sub(n, lo, hi, m),
        forall|j: int| 0 <= j < bseq(n).len() ==> lo2 < (#[trigger] bseq(n)[j]).0 < hi2,
    ensures
        bwf_sub(n, lo2, hi2, m),
    decreases n,
{
    let e = n.entries@;
    let c = n.children@;
    assert forall|i: int| 0 <= i < e.len() implies lo2 < (#[trigger] e[i]).0 < hi2 by {
        lemma_bseq_decomp(n, i);
        assert(bseq_from(n, i) == childseq(n, i) + seq![e[i]] + bseq_from(n, i + 1)) by {
            if c.len() == e.len() + 1 {
                assert(bseq_from(n, i) == bseq_from(c[i], 0) + seq![e[i]] + bseq_from(n, i + 1));
            } else {
                assert(bseq_from(n, i) =~= childseq(n, i) + seq![e[i]] + bseq_from(n, i + 1));
            }
        }
        let pos = bpre(n, i).len() + childseq(n, i).len();
        assert(bseq(n)[pos as int] == e[i]);
    }
    if c.len() > 0 {
        let last = e.len() as int;
        assert forall|i: int| 0 <= i < c.len() implies bwf_sub(
            #[trigger] c[i],
            clo(e, lo2, i),
            chi(e, hi2, i),
            m,
        ) by {
            assert(bwf_sub(c[i], clo(e, lo, i), chi(e, hi, i), m));
            if i == 0 || i == last {
                let li = clo(e, lo, i);
                let hi_i = chi(e, hi, i);
                let li2 = clo(e, lo2, i);
                let hi_i2 = chi(e, hi2, i);
                lemma_loose(c[i], li, hi_i, m);
                lemma_bseq_props(c[i], li, hi_i, m);
                // The child's pairs sit inside the subtree's pairs.
                if i == 0 {
                    lemma_bseq_decomp(n, 0);
                    assert(bseq_from(n, 0) == bseq(c[0]) + tailseq(n, 0)) by {
                        if 0 < e.len() {
                            assert(bseq_from(n, 0) == bseq_from(c[0], 0) + seq![e[0]] + bseq_from(
                                n,
                                1,
                            ));
                            assert(bseq_from(n, 0) =~= bseq(c[0]) + tailseq(n, 0));
                        } else {
                            assert(bseq_from(n, 0) =~= bseq(c[0]) + tailseq(n, 0));
                        }
                    }
                    assert forall|j: int|
                        0 <= j < bseq(c[0]).len() implies li2 < (#[trigger] bseq(c[0])[j]).0
                        < hi_i2 by {
                        assert(bseq(n)[j] == bseq(c[0])[j]) by {
                            assert(bseq(n) =~= bpre(n, 0) + bseq_from(n, 0));
                            assert(bpre(n, 0).len() == 0);
                        }
                    }
                    lemma_bwf_narrow(c[0], li, hi_i, li2, hi_i2, m);
                } else {
                    lemma_bseq_decomp(n, last);
                    assert(bseq_from(n, last) == bseq(c[last]));
                    assert forall|j: int|
                        0 <= j < bseq(c[last]).len() implies li2 < (#[trigger] bseq(
                            c[last],
                        )[j]).0 < hi_i2 by {
                        assert(bseq(n)[bpre(n, last).len() + j] == bseq(c[last])[j]);
                    }
                    lemma_bwf_narrow(c[last], li, hi_i, li2, hi_i2, m);
                }
            } else {
                assert(clo(e, lo2, i) == clo(e, lo, i));
                assert(chi(e, hi2, i) == chi(e, hi, i));
            }
        }
    }
}

/// A subtree of depth zero is a leaf.
proof fn lemma_depth_zero_leaf(n: BNode)
    ensures
        (bdepth(n) == 0) <==> (n.children@.len() == 0),
{
}

/// Joins two sibling nodes around their separating entry into one node;
/// the stored pairs and their order never change.
fn bmerge(
    a: BNode,
    sep: (u64, u64),
    b: BNode,
    Ghost(lo): Ghost<int>,
    Ghost(hi): Ghost<int>,
    Ghost(m): Ghost<int>,
) -> (r: BNode)
    requires
        bwf_sub(a, lo, sep.0 as int, m),
        bwf_sub(b, sep.0 as int, hi, m),
        lo < sep.0 < hi,
        bdepth(a) == bdepth(b),
    ensures
        bwf_loose(r, lo, hi, m),
        r.entries@.len() == a.entries@.len() + 1 + b.entries@.len(),
        bseq(r) == bseq(a) + seq![sep] + bseq(b),
        bdepth(r) == bdepth(a),
    decreases 0int,
{
    proof {
        lemma_depth_zero_leaf(a);
        lemma_depth_zero_leaf(b);
    }
    let BNode { entries: mut ea, children: mut ca } = a;
    let BNode { entries: eb, children: cb } = b;
    let mut eb = eb;
    let mut cb = cb;
    ea.push(sep);
    ea.append(&mut eb);
    ca.append(&mut cb);
    let r = BNode { entries: ea, children: ca };
    let ghost x = a.entries@.len() as int;
    proof {
        let e = r.entries@;
        assert(e =~= a.entries@ + seq![sep] + b.entries@);
        assert(r.children@ =~= a.children@ + b.children@);
        assert(forall|i: int| 0 <= i < x ==> e[i] == a.entries@[i]);
        assert(e[x] == sep);
        assert(forall|i: int| x < i < e.len() ==> e[i] == b.entries@[i - x - 1]);
        assert(forall|i: int| 0 <= i < a.children@.len() ==> r.children@[i] == a.children@[i]);
        assert(forall|i: int|
            a.children@.len() <= i < r.children@.len() ==> r.children@[i] == b.children@[i
                - a.children@.len()]);
        // The joined node keeps every shape and ordering conjunct.
        assert(bwf_loose(r, lo, hi, m)) by {
            assert forall|i: int, t: int| 0 <= i < t < e.len() implies e[i].0 < e[t].0 by {
                if t < x {
                } else if i > x {
                } else if i == x {
                    assert(e[t] == b.entries@[t - x - 1]);
                } else if t == x {
                    assert(e[i] == a.entries@[i]);
                } else {
                    assert(e[i] == a.entries@[i]);
                    assert(e[t] == b.entries@[t - x - 1]);
                }
            }
            if r.children@.len() > 0 {
                assert(a.children@.len() == x + 1);
                assert(b.children@.len() == b.entries@.len() + 1);
                assert(r.children@.len() == e.len() + 1);
                assert forall|i: int| 0 <= i < r.children@.len() implies bwf_sub(
                    #[trigger] r.children@[i],
                    clo(e, lo, i),
                    chi(e, hi, i),
                    m,
                ) by {
                    if i <= x {
                        assert(r.children@[i] == a.children@[i]);
                        assert(bwf_sub(
                            a.children@[i],
                            clo(a.entries@, lo, i),
                            chi(a.entries@, sep.0 as int, i),
                            m,
                        ));
                        assert(clo(e, lo, i) == clo(a.entries@, lo, i));
                        assert(chi(e, hi, i) == chi(a.entries@, sep.0 as int, i));
                    } else {
                        assert(r.children@[i] == b.children@[i - x - 1]);
                        assert(bwf_sub(
                            b.children@[i - x - 1],
                            clo(b.entries@, sep.0 as int, i - x - 1),
                            chi(b.entries@, hi, i - x - 1),
                            m,
                        ));
                        assert(clo(e, lo, i) == clo(b.entries@, sep.0 as int, i - x - 1));
                        assert(chi(e, hi, i) == chi(b.entries@, hi, i - x - 1));
                    }
                }
                assert forall|i: int|
                    0 <= i < r.children@.len() implies (#[trigger] r.children@[i]).entries@.len()
                    >= lo_occ(m) by {
                    if i <= x {
                        assert(r.children@[i] == a.children@[i]);
                    } else {
                        assert(r.children@[i] == b.children@[i - x - 1]);
                    }
                }
                assert(bdepth(r) == bdepth(a)) by {
                    assert(r.children@[0] == a.children@[0]);
                }
                assert forall|i: int|
                    0 <= i < r.children@.len() implies bdepth(#[trigger] r.children@[i]) + 1
                    == bdepth(r) by {
                    if i <= x {
                        assert(r.children@[i] == a.children@[i]);
                        assert(bdepth(a.children@[i]) + 1 == bdepth(a));
                    } else {
                        assert(r.children@[i] == b.children@[i - x - 1]);
                        assert(bdepth(b.children@[i - x - 1]) + 1 == bdepth(b));
                    }
                }
            }
        }
        // The pairs re-assemble around the separator.
        assert(a.entries@ =~= r.entries@.subrange(0, x));
        assert(b.entries@ =~= r.entries@.subrange(x + 1, r.entries@.len() as int));
        if r.children@.len() > 0 {
            assert(a.children@ =~= r.children@.subrange(0, x + 1));
            assert(b.children@ =~= r.children@.subrange(x + 1, r.children@.len() as int));
        }
        lemma_bseq_take(r, a, x);
        lemma_bseq_skip(r, b, x + 1);
        lemma_bseq_decomp(r, x);
        assert(bseq_from(r, x) == childseq(r, x) + seq![sep] + bseq_from(r, x + 1)) by {
            if r.children@.len() > 0 {
                assert(bseq_from(r, x) == bseq_from(r.children@[x], 0) + seq![sep] + bseq_from(
                    r,
                    x + 1,
                ));
            } else {
                assert(bseq_from(r, x) =~= childseq(r, x) + seq![sep] + bseq_from(r, x + 1));
            }
        }
        assert(bseq(r) =~= bseq(a) + seq![sep] + bseq(b));
        assert(bdepth(r) == bdepth(a)) by {
            if r.children@.len() > 0 {
                assert(r.children@[0] == a.children@[0]);
            }
        }
    }
    r
}

/// Rebuilding a node after two adjacent children merged into one, their
/// separating entry pulled down between them.
#[verifier::rlimit(100)]
proof fn lemma_rebuild_merged(a: BNode, b: BNode, x: int, m: int, lo: int, hi: int, mg: BNode)
    requires
        exists|xj: int| (xj == x || xj == x + 1) && bwf_except(a, lo, hi, m, xj),
        0 <= x,
        x + 1 < a.children@.len(),
        a.children@.len() == a.entries@.len() + 1,
        b.entries@ == a.entries@.remove(x),
        b.children@ == a.children@.remove(x + 1).update(x, mg),
        bwf_sub(mg, clo(a.entries@, lo, x), chi(a.entries@, hi, x + 1), m),
        mg.entries@.len() >= lo_occ(m),
        mg.entries@.len() <= hi_occ(m),
        bdepth(mg) == bdepth(a.children@[x]),
    ensures
        bwf_sub(b, lo, hi, m),
        b.entries@.len() == a.entries@.len() - 1,
        bseq(b) == bpre(a, x) + bseq(mg) + tailseq(a, x + 1),
        bdepth(b) == bdepth(a),
{
    let e = a.entries@;
    let eb = b.entries@;
    let xj = choose|xj: int| (xj == x || xj == x + 1) && bwf_except(a, lo, hi, m, xj);
    assert(forall|i: int| 0 <= i < x ==> eb[i] == e[i]);
    assert(forall|i: int| x <= i < eb.len() ==> eb[i] == e[i + 1]);
    assert(b.children@.len() == eb.len() + 1);
    assert(forall|i: int| 0 <= i < x ==> b.children@[i] == a.children@[i]);
    assert(b.children@[x] == mg);
    assert(forall|i: int| x < i < b.children@.len() ==> b.children@[i] == a.children@[i + 1]);
    assert(bdepth(b) == bdepth(a)) by {
        if x == 0 {
            assert(b.children@[0] == mg);
            assert(bdepth(a.children@[0]) + 1 == bdepth(a));
        } else {
            assert(b.children@[0] == a.children@[0]);
        }
    }
    assert(bwf_sub(b, lo, hi, m)) by {
        assert forall|i: int| 0 <= i < b.children@.len() implies bwf_sub(
            #[trigger] b.children@[i],
            clo(eb, lo, i),
            chi(eb, hi, i),
            m,
        ) by {
            if i < x {
                assert(b.children@[i] == a.children@[i]);
                assert(clo(eb, lo, i) == clo(e, lo, i));
                assert(chi(eb, hi, i) == chi(e, hi, i));
            } else if i == x {
                assert(clo(eb, lo, x) == clo(e, lo, x));
                assert(chi(eb, hi, x) == chi(e, hi, x + 1));
            } else {
                assert(b.children@[i] == a.children@[i + 1]);
                assert(clo(eb, lo, i) == clo(e, lo, i + 1));
                assert(chi(eb, hi, i) == chi(e, hi, i + 1));
            }
        }
        assert forall|i: int|
            0 <= i < b.children@.len() implies (#[trigger] b.children@[i]).entries@.len()
            >= lo_occ(m) by {
            if i < x {
                assert(b.children@[i] == a.children@[i]);
            } else if i > x {
                assert(b.children@[i] == a.children@[i + 1]);
            }
        }
        assert forall|i: int|
            0 <= i < b.children@.len() implies bdepth(#[trigger] b.children@[i]) + 1 == bdepth(
            b,
        ) by {
            if i < x {
                assert(b.children@[i] == a.children@[i]);
            } else if i > x {
                assert(b.children@[i] == a.children@[i + 1]);
            } else {
                assert(bdepth(a.children@[x]) + 1 == bdepth(a));
            }
        }
    }
    assert forall|i: int| 0 <= i < x implies childseq(a, i) == childseq(b, i) by {
        assert(b.children@[i] == a.children@[i]);
    }
    lemma_bpre_entries_eq(a, b, x);
    lemma_bseq_decomp(b, x);
    assert(bseq_from(b, x) == bseq(mg) + tailseq(a, x + 1)) by {
        if x < eb.len() {
            lemma_bseq_from_align(a, b, x + 1, 1);
            assert(bseq_from(b, x) == bseq_from(b.children@[x], 0) + seq![eb[x]] + bseq_from(
                b,
                x + 1,
            ));
            assert(eb[x] == e[x + 1]);
            assert(bseq_from(b, x) =~= bseq(mg) + (seq![e[x + 1]] + bseq_from(a, x + 2)));
        } else {
            assert(bseq_from(b, x) == bseq_from(b.children@[x], 0));
            assert(x + 1 == e.len());
            assert(bseq_from(b, x) =~= bseq(mg) + tailseq(a, x + 1));
        }
    }
}

/// Rebuilding a node after a merged child had to split again: the two
/// halves stand where the merged pair of children stood, the new median
/// replacing the pulled-down entry.
#[verifier::rlimit(100)]
proof fn lemma_rebuild_two_children(
    a: BNode,
    b: BNode,
    x: int,
    m: int,
    lo: int,
    hi: int,
    med: (u64, u64),
    ml: BNode,
    mr: BNode,
)
    requires
        exists|xj: int| (xj == x || xj == x + 1) && bwf_except(a, lo, hi, m, xj),
        0 <= x,
        x + 1 < a.children@.len(),
        a.children@.len() == a.entries@.len() + 1,
        b.entries@ == a.entries@.update(x, med),
        b.children@ == a.children@.update(x, ml).update(x + 1, mr),
        clo(a.entries@, lo, x) < med.0 < chi(a.entries@, hi, x + 1),
        bwf(ml, clo(a.entries@, lo, x), med.0 as int, m),
        bwf(mr, med.0 as int, chi(a.entries@, hi, x + 1), m),
        ml.entries@.len() >= lo_occ(m),
        mr.entries@.len() >= lo_occ(m),
        bdepth(ml) == bdepth(a.children@[x]),
        bdepth(mr) == bdepth(a.children@[x]),
    ensures
        bwf_sub(b, lo, hi, m),
        b.entries@.len() == a.entries@.len(),
        bseq(b) == bpre(a, x) + (bseq(ml) + seq![med] + bseq(mr)) + tailseq(a, x + 1),
        bdepth(b) == bdepth(a),
{
    let e = a.entries@;
    let eb = b.entries@;
    assert(forall|i: int| 0 <= i < eb.len() && i != x ==> eb[i] == e[i]);
    assert(eb[x] == med);
    assert(forall|i: int| 0 <= i < x ==> b.children@[i] == a.children@[i]);
    assert(b.children@[x] == ml);
    assert(b.children@[x + 1] == mr);
    assert(forall|i: int| x + 1 < i < b.children@.len() ==> b.children@[i] == a.children@[i]);
    assert(bdepth(b) == bdepth(a)) by {
        if x == 0 {
            assert(bdepth(a.children@[0]) + 1 == bdepth(a));
        } else {
            assert(b.children@[0] == a.children@[0]);
        }
    }
    assert(bwf_sub(b, lo, hi, m)) by {
        assert forall|i: int, t: int| 0 <= i < t < eb.len() implies eb[i].0 < eb[t].0 by {
            if i == x {
                assert((med.0 as int) < chi(e, hi, x + 1));
                if x + 1 < e.len() {
                    assert(e[x + 1].0 <= e[t].0);
                }
            } else if t == x {
                assert((eb[i].0 as int) <= clo(e, lo, x));
            }
        }
        assert forall|i: int| 0 <= i < eb.len() implies lo < (#[trigger] eb[i]).0 < hi by {
            if i == x {
                assert(clo(e, lo, x) >= lo);
                assert(chi(e, hi, x + 1) <= hi);
            }
        }
        assert forall|i: int| 0 <= i < b.children@.len() implies bwf_sub(
            #[trigger] b.children@[i],
            clo(eb, lo, i),
            chi(eb, hi, i),
            m,
        ) by {
            if i < x {
                assert(b.children@[i] == a.children@[i]);
                assert(clo(eb, lo, i) == clo(e, lo, i));
                assert(chi(eb, hi, i) == chi(e, hi, i));
            } else if i == x {
                assert(clo(eb, lo, x) == clo(e, lo, x));
                assert(chi(eb, hi, x) == med.0 as int);
            } else if i == x + 1 {
                assert(clo(eb, lo, x + 1) == med.0 as int);
                assert(chi(eb, hi, x + 1) == chi(e, hi, x + 1));
            } else {
                assert(b.children@[i] == a.children@[i]);
                assert(clo(eb, lo, i) == clo(e, lo, i));
                assert(chi(eb, hi, i) == chi(e, hi, i));
            }
        }
        assert forall|i: int|
            0 <= i < b.children@.len() implies (#[trigger] b.children@[i]).entries@.len()
            >= lo_occ(m) by {
            if i < x || i > x + 1 {
                assert(b.children@[i] == a.children@[i]);
            }
        }
        assert forall|i: int|
            0 <= i < b.children@.len() implies bdepth(#[trigger] b.children@[i]) + 1 == bdepth(
            b,
        ) by {
            if i < x || i > x + 1 {
                assert(b.children@[i] == a.children@[i]);
            } else {
                assert(bdepth(a.children@[x]) + 1 == bdepth(a));
            }
        }
    }
    assert forall|i: int| 0 <= i < x implies childseq(a, i) == childseq(b, i) by {
        assert(b.children@[i] == a.children@[i]);
    }
    lemma_bpre_entries_eq(a, b, x);
    lemma_bseq_decomp(b, x);
    assert(bseq_from(b, x) == bseq(ml) + seq![med] + bseq_from(b, x + 1));
    assert(bseq_from(b, x + 1) == bseq(mr) + tailseq(a, x + 1)) by {
        if x + 1 < eb.len() {
            lemma_bseq_from_align(a, b, x + 2, 0);
            assert(eb[x + 1] == e[x + 1]);
            assert(bseq_from(b, x + 1) == bseq_from(b.children@[x + 1], 0) + seq![eb[x + 1]]
                + bseq_from(b, x + 2));
            assert(bseq_from(b, x + 1) =~= bseq(mr) + (seq![e[x + 1]] + bseq_from(a, x + 2)));
        } else {
            assert(bseq_from(b, x + 1) == bseq_from(b.children@[x + 1], 0));
            assert(bseq_from(b, x + 1) =~= bseq(mr) + tailseq(a, x + 1));
        }
    }
    assert(bseq(b) =~= bpre(a, x) + (bseq(ml) + seq![med] + bseq(mr)) + tailseq(a, x + 1));
}

/// Restores the occupancy of the child at `j`, which has dropped below
/// the rule, by merging it with a neighbour around their separating
/// entry; when the joined node is itself too full, it splits again and
/// the new median moves up in place of the pulled-down entry. The stored
/// pairs and their order never change.
#[verifier::rlimit(100)]
fn fix_underflow(
    n: BNode,
    j: usize,
    maxk: usize,
    mink: usize,
    Ghost(lo): Ghost<int>,
    Ghost(hi): Ghost<int>,
) -> (r: BNode)
    requires
        maxk >= 3,
        mink == maxk / 2,
        bwf_except(n, lo, hi, maxk as int, j as int),
        n.children@[j as int].entries@.len() < mink,
        n.entries@.len() >= 1,
        j < n.children@.len(),
    ensures
        bwf_sub(r, lo, hi, maxk as int),
        r.entries@.len() >= n.entries@.len() - 1,
        r.entries@.len() <= n.entries@.len(),
        bseq(r) == bseq(n),
        bdepth(r) == bdepth(n),
    decreases 0int,
{
    let ghost m = maxk as int;
    let ghost orig = n;
    let ghost e = n.entries@;
    let mut n = n;
    // Merge child `j` with its left neighbour, or its right one when it
    // is the first child.
    let jl: usize = if j > 0 {
        j - 1
    } else {
        0
    };
    let ghost xl = jl as int;
    let right_c = n.children.remove(jl + 1);
    let left_c = n.children.remove(jl);
    let sep = n.entries.remove(jl);
    proof {
        assert(left_c == orig.children@[xl]);
        assert(right_c == orig.children@[xl + 1]);
        assert(sep == e[xl]);
        assert(bwf_sub(left_c, clo(e, lo, xl), sep.0 as int, m));
        assert(bwf_sub(right_c, sep.0 as int, chi(e, hi, xl + 1), m));
        assert(bdepth(left_c) == bdepth(right_c));
    }
    let merged = bmerge(
        left_c,
        sep,
        right_c,
        Ghost(clo(e, lo, xl)),
        Ghost(chi(e, hi, xl + 1)),
        Ghost(m),
    );
    let ghost mseq = bseq(orig.children@[xl]) + seq![sep] + bseq(orig.children@[xl + 1]);
    proof {
        // The subtree's pairs around the merge site are unchanged.
        lemma_bseq_decomp(orig, xl);
        assert(bseq_from(orig, xl) == childseq(orig, xl) + seq![sep] + bseq_from(orig, xl + 1));
        assert(bseq_from(orig, xl + 1) == childseq(orig, xl + 1) + tailseq(orig, xl + 1)) by {
            if xl + 1 < e.len() {
                assert(bseq_from(orig, xl + 1) == bseq_from(orig.children@[xl + 1], 0) + seq![
                    e[xl + 1],
                ] + bseq_from(orig, xl + 2));
                assert(bseq_from(orig, xl + 1) =~= childseq(orig, xl + 1) + tailseq(orig, xl + 1));
            } else {
                assert(bseq_from(orig, xl + 1) =~= childseq(orig, xl + 1) + tailseq(
                    orig,
                    xl + 1,
                ));
            }
        }
        assert(bseq(orig) =~= bpre(orig, xl) + mseq + tailseq(orig, xl + 1));
    }
    proof {
        assert(merged.entries@.len() <= hi_occ(m) + mink) by {
            if j > 0 {
                assert(orig.children@[xl].entries@.len() <= hi_occ(m));
            } else {
                assert(orig.children@[xl + 1].entries@.len() <= hi_occ(m));
            }
        }
    }
    if merged.entries.len() >= maxk {
        // Too full to stand: split and push the median back up.
        let (ml, med, mr) = bsplit(
            merged,
            maxk,
            mink,
            Ghost(clo(e, lo, xl)),
            Ghost(chi(e, hi, xl + 1)),
        );
        n.entries.insert(jl, med);
        n.children.insert(jl, ml);
        n.children.insert(jl + 1, mr);
        proof {
            assert(n.entries@ =~= e.update(xl, med));
            assert(n.children@ =~= orig.children@.update(xl, ml).update(xl + 1, mr));
            assert(bdepth(ml) == bdepth(orig.children@[xl]));
            lemma_rebuild_two_children(orig, n, xl, m, lo, hi, med, ml, mr);
            assert(bseq(n) == bseq(orig));
        }
        n
    } else {
        n.children.insert(jl, merged);
        proof {
            assert(n.entries@ =~= e.remove(xl));
            assert(n.children@ =~= orig.children@.remove(xl + 1).update(xl, merged));
            assert(merged.entries@.len() <= hi_occ(m)) by {
                assert(merged.entries@.len() <= maxk - 1);
            }
            assert(merged.entries@.len() >= lo_occ(m));
            lemma_loose(merged, clo(e, lo, xl), chi(e, hi, xl + 1), m);
            lemma_rebuild_merged(orig, n, xl, m, lo, hi, merged);
            assert(bseq(n) == bseq(orig));
        }
        n
    }
}

/// Detaches the pair with the greatest key from a well-formed subtree:
/// the rightmost leaf loses its last entry, and an underfull node on the
/// way back up is merged with its neighbour. The popped key bounds every
/// remaining key from above.
#[verifier::rlimit(100)]
fn bpop_max(
    n: BNode,
    maxk: usize,
    mink: usize,
    Ghost(lo): Ghost<int>,
    Ghost(hi): Ghost<int>,
) -> (r: (BNode, u64, u64))
    requires
        maxk >= 3,
        mink == maxk / 2,
        bwf(n, lo, hi, maxk as int),
    ensures
        bwf_sub(r.0, lo, r.1 as int, maxk as int),
        r.0.entries@.len() >= n.entries@.len() - 1,
        bseq(r.0) == bseq(n).drop_last(),
        (r.1, r.2) == bseq(n).last(),
        lo < r.1 < hi,
        bdepth(r.0) == bdepth(n),
    decreases n,
{
    let ghost m = maxk as int;
    let ghost orig = n;
    let ghost e = n.entries@;
    let mut n = n;
    proof {
        lemma_loose(orig, lo, hi, m);
        lemma_bseq_props(orig, lo, hi, m);
    }
    if n.children.len() == 0 {
        let p = n.entries.pop().unwrap();
        proof {
            lemma_bseq_leaf_from(orig, 0);
            assert(bseq(orig) == e.skip(0));
            assert(e.skip(0) =~= e);
            lemma_bseq_leaf_from(n, 0);
            assert(n.entries@ =~= e.drop_last());
            assert(bseq(n) == n.entries@.skip(0));
            assert(n.entries@.skip(0) =~= e.drop_last());
            assert(p == e.last());
            assert(bwf_sub(n, lo, p.0 as int, m)) by {
                assert forall|i: int|
                    0 <= i < n.entries@.len() implies lo < (#[trigger] n.entries@[i]).0
                    < p.0 as int by {
                    assert(n.entries@[i] == e[i]);
                    assert(e[i].0 < e[e.len() - 1].0);
                }
            }
        }
        (n, p.0, p.1)
    } else {
        let lj = n.children.len() - 1;
        let ghost xl = lj as int;
        let child = n.children.pop().unwrap();
        proof {
            assert(xl == e.len());
            assert(child == orig.children@[xl]);
            assert(bwf(child, clo(e, lo, xl), hi, m)) by {
                assert(bwf_sub(orig.children@[xl], clo(e, lo, xl), chi(e, hi, xl), m));
                assert(chi(e, hi, xl) == hi);
                assert(orig.children@[xl].entries@.len() >= lo_occ(m));
                assert(lo_occ(m) >= 1);
            }
        }
        let (child2, rk, rv) = bpop_max(child, maxk, mink, Ghost(clo(e, lo, xl)), Ghost(hi));
        let ccnt = child2.entries.len();
        proof {
            lemma_bwf_sub_widen(child2, clo(e, lo, xl), rk as int, clo(e, lo, xl), hi, m);
        }
        n.children.push(child2);
        proof {
            assert(n.entries@ == e);
            assert(n.children@ =~= orig.children@.update(xl, child2));
            assert(bdepth(child2) == bdepth(orig.children@[xl]));
            lemma_rebuild_one_child(orig, n, xl, m, lo, hi);
            // The subtree's last pair is its rightmost child's last pair.
            lemma_bseq_decomp(orig, xl);
            assert(bseq_from(orig, xl) == childseq(orig, xl));
            assert(childseq(orig, xl) == bseq(child));
            assert(bseq(child).len() >= 1) by {
                lemma_loose(child, clo(e, lo, xl), hi, m);
                lemma_bseq_props(child, clo(e, lo, xl), hi, m);
            }
            assert(bseq(orig).last() == bseq(child).last()) by {
                assert(bseq(orig)[bpre(orig, xl).len() + (bseq(child).len() - 1)] == bseq(
                    child,
                ).last());
                assert(bpre(orig, xl).len() + bseq(child).len() == bseq(orig).len());
            }
            assert(tailseq(orig, xl) =~= Seq::<(u64, u64)>::empty());
            assert(bseq(n) == bpre(orig, xl) + bseq(child).drop_last()) by {
                assert(bseq(n) =~= bpre(orig, xl) + bseq(child).drop_last() + Seq::<(
                    u64,
                    u64,
                )>::empty());
            }
            assert(bseq(n) == bseq(orig).drop_last()) by {
                assert(bseq(n) =~= bseq(orig).drop_last());
            }
        }
        let out: BNode;
        if ccnt < mink {
            proof {
                assert(bwf_except(n, lo, hi, m, xl));
            }
            out = fix_underflow(n, lj, maxk, mink, Ghost(lo), Ghost(hi));
        } else {
            proof {
                assert(bwf_loose(n, lo, hi, m)) by {
                    assert(ccnt >= mink);
                    assert(lo_occ(m) <= mink as int);
                }
                lemma_loose(n, lo, hi, m);
            }
            out = n;
        }
        proof {
            // Every remaining key sits strictly below the popped one.
            assert forall|j: int|
                0 <= j < bseq(out).len() implies lo < (#[trigger] bseq(out)[j]).0
                < rk as int by {
                assert(bseq(out)[j] == bseq(orig)[j]);
                assert(bseq(orig)[j].0 < bseq(orig).last().0);
            }
            lemma_bwf_narrow(out, lo, hi, lo, rk as int, m);
        }
        (out, rk, rv)
    }
}

/// Detaches the pair with the least key from a well-formed subtree: the
/// mirror image of `bpop_max`. The popped key bounds every remaining key
/// from below.
#[verifier::rlimit(100)]
fn bpop_min(
    n: BNode,
    maxk: usize,
    mink: usize,
    Ghost(lo): Ghost<int>,
    Ghost(hi): Ghost<int>,
) -> (r: (BNode, u64, u64))
    requires
        maxk >= 3,
        mink == maxk / 2,
        bwf(n, lo, hi, maxk as int),
    ensures
        bwf_sub(r.0, r.1 as int, hi, maxk as int),
        r.0.entries@.len() >= n.entries@.len() - 1,
        bseq(r.0) == bseq(n).drop_first(),
        (r.1, r.2) == bseq(n)[0],
        lo < r.1 < hi,
        bdepth(r.0) == bdepth(n),
    decreases n,
{
    let ghost m = maxk as int;
    let ghost orig = n;
    let ghost e = n.entries@;
    let mut n = n;
    proof {
        lemma_loose(orig, lo, hi, m);
        lemma_bseq_props(orig, lo, hi, m);
    }
    if n.children.len() == 0 {
        let p = n.entries.remove(0);
        proof {
            lemma_bseq_leaf_from(orig, 0);
            assert(bseq(orig) == e.skip(0));
            assert(e.skip(0) =~= e);
            lemma_bseq_leaf_from(n, 0);
            assert(n.entries@ =~= e.drop_first());
            assert(bseq(n) == n.entries@.skip(0));
            assert(n.entries@.skip(0) =~= e.drop_first());
            assert(p == e[0]);
            assert(bwf_sub(n, p.0 as int, hi, m)) by {
                assert forall|i: int|
                    0 <= i < n.entries@.len() implies (p.0 as int) < (#[trigger] n.entries@[i]).0
                    < hi by {
                    assert(n.entries@[i] == e[i + 1]);
                    assert(e[0].0 < e[i + 1].0);
                }
            }
        }
        (n, p.0, p.1)
    } else {
        let child = n.children.remove(0);
        proof {
            assert(child == orig.children@[0]);
            assert(bwf(child, lo, chi(e, hi, 0), m)) by {
                assert(bwf_sub(orig.children@[0], clo(e, lo, 0), chi(e, hi, 0), m));
                assert(clo(e, lo, 0) == lo);
                assert(orig.children@[0].entries@.len() >= lo_occ(m));
                assert(lo_occ(m) >= 1);
            }
        }
        let (child2, rk, rv) = bpop_min(child, maxk, mink, Ghost(lo), Ghost(chi(e, hi, 0)));
        let ccnt = child2.entries.len();
        proof {
            lemma_bwf_sub_widen(child2, rk as int, chi(e, hi, 0), lo, chi(e, hi, 0), m);
        }
        n.children.insert(0, child2);
        proof {
            assert(n.entries@ == e);
            assert(n.children@ =~= orig.children@.update(0, child2));
            assert(bdepth(child2) == bdepth(orig.children@[0]));
            lemma_rebuild_one_child(orig, n, 0, m, lo, hi);
            // The subtree's first pair is its leftmost child's first pair.
            lemma_bseq_decomp(orig, 0);
            assert(bseq_from(orig, 0) == bseq(child) + tailseq(orig, 0)) by {
                if 0 < e.len() {
                    assert(bseq_from(orig, 0) == bseq_from(orig.children@[0], 0) + seq![e[0]]
                        + bseq_from(orig, 1));
                    assert(bseq_from(orig, 0) =~= bseq(child) + tailseq(orig, 0));
                } else {
                    assert(bseq_from(orig, 0) =~= bseq(child) + tailseq(orig, 0));
                }
            }
            assert(bseq(child).len() >= 1) by {
                lemma_loose(child, lo, chi(e, hi, 0), m);
                lemma_bseq_props(child, lo, chi(e, hi, 0), m);
            }
            assert(bpre(orig, 0).len() == 0);
            assert(bseq(orig) =~= bseq(child) + tailseq(orig, 0));
            assert(bseq(orig)[0] == bseq(child)[0]);
            assert(bseq(n) == bpre(orig, 0) + bseq(child).drop_first() + tailseq(orig, 0));
            assert(bseq(n) == bseq(orig).drop_first()) by {
                assert(bseq(n) =~= bseq(orig).drop_first());
            }
        }
        let out: BNode;
        if ccnt < mink {
            proof {
                assert(bwf_except(n, lo, hi, m, 0));
            }
            out = fix_underflow(n, 0, maxk, mink, Ghost(lo), Ghost(hi));
        } else {
            proof {
                assert(bwf_loose(n, lo, hi, m)) by {
                    assert(ccnt >= mink);
                    assert(lo_occ(m) <= mink as int);
                }
                lemma_loose(n, lo, hi, m);
            }
            out = n;
        }
        proof {
            // Every remaining key sits strictly above the popped one.
            assert forall|j: int|
                0 <= j < bseq(out).len() implies (rk as int) < (#[trigger] bseq(out)[j]).0
                < hi by {
                assert(bseq(out)[j] == bseq(orig)[j + 1]);
                assert(bseq(orig)[0].0 < bseq(orig)[j + 1].0);
            }
            lemma_bwf_narrow(out, lo, hi, rk as int, hi, m);
        }
        (out, rk, rv)
    }
}

/// Rebuilding a node whose entry at `x` was replaced by the greatest pair
/// of the child before it, that child shrunk by the moved pair: shape
/// facts and the pair sequence.
#[verifier::rlimit(100)]
proof fn lemma_rebuild_pred(a: BNode, b: BNode, x: int, m: int, lo: int, hi: int, q: (u64, u64))
    requires
        bwf_loose(a, lo, hi, m),
        a.children@.len() == a.entries@.len() + 1,
        0 <= x < a.entries@.len(),
        b.entries@ == a.entries@.update(x, q),
        b.children@ == a.children@.update(x, b.children@[x]),
        clo(a.entries@, lo, x) < q.0 < a.entries@[x].0,
        bwf_sub(b.children@[x], clo(a.entries@, lo, x), q.0 as int, m),
        bdepth(b.children@[x]) == bdepth(a.children@[x]),
    ensures
        b.children@[x].entries@.len() >= lo_occ(m) ==> bwf_loose(b, lo, hi, m),
        (b.children@[x].entries@.len() >= lo_occ(m) - 1 && a.entries@.len() <= hi_occ(m))
            ==> bwf_except(b, lo, hi, m, x),
        b.entries@.len() == a.entries@.len(),
        bseq(b) == bpre(a, x) + (bseq(b.children@[x]) + seq![q]) + bseq_from(a, x + 1),
        bdepth(b) == bdepth(a),
{
    let e = a.entries@;
    let eb = b.entries@;
    let cb = b.children@[x];
    assert(forall|i: int| 0 <= i < eb.len() && i != x ==> eb[i] == e[i]);
    assert(eb[x] == q);
    assert(forall|i: int| 0 <= i < b.children@.len() && i != x ==> b.children@[i]
        == a.children@[i]);
    assert(bdepth(b) == bdepth(a)) by {
        if x == 0 {
            assert(bdepth(cb) == bdepth(a.children@[0]));
        } else {
            assert(b.children@[0] == a.children@[0]);
        }
    }
    assert forall|i: int, t: int| 0 <= i < t < eb.len() implies eb[i].0 < eb[t].0 by {
        if i == x {
            assert(eb[t] == e[t]);
            assert(e[x].0 <= e[t].0);
        } else if t == x {
            assert(eb[i] == e[i]);
            assert((eb[i].0 as int) <= clo(e, lo, x));
        }
    }
    assert forall|i: int| 0 <= i < eb.len() implies lo < (#[trigger] eb[i]).0 < hi by {
        if i == x {
            assert(clo(e, lo, x) >= lo);
            assert(e[x].0 < hi);
        }
    }
    assert forall|i: int| 0 <= i < b.children@.len() implies bwf_sub(
        #[trigger] b.children@[i],
        clo(eb, lo, i),
        chi(eb, hi, i),
        m,
    ) by {
        if i == x {
            assert(clo(eb, lo, x) == clo(e, lo, x));
            assert(chi(eb, hi, x) == q.0 as int);
        } else if i == x + 1 {
            assert(b.children@[i] == a.children@[i]);
            assert(bwf_sub(a.children@[i], clo(e, lo, i), chi(e, hi, i), m));
            assert(clo(e, lo, x + 1) == e[x].0 as int);
            assert(clo(eb, lo, x + 1) == q.0 as int);
            assert(chi(eb, hi, i) == chi(e, hi, i));
            lemma_bwf_sub_widen(
                a.children@[i],
                e[x].0 as int,
                chi(e, hi, i),
                q.0 as int,
                chi(e, hi, i),
                m,
            );
        } else {
            assert(b.children@[i] == a.children@[i]);
            assert(clo(eb, lo, i) == clo(e, lo, i));
            assert(chi(eb, hi, i) == chi(e, hi, i));
        }
    }
    assert forall|i: int|
        0 <= i < b.children@.len() && i != x implies (#[trigger] b.children@[i]).entries@.len()
        >= lo_occ(m) by {
        assert(b.children@[i] == a.children@[i]);
    }
    assert forall|i: int|
        0 <= i < b.children@.len() implies bdepth(#[trigger] b.children@[i]) + 1 == bdepth(b) by {
        if i != x {
            assert(b.children@[i] == a.children@[i]);
        } else {
            assert(bdepth(a.children@[x]) + 1 == bdepth(a));
        }
    }
    assert forall|i: int| 0 <= i < x implies childseq(a, i) == childseq(b, i) by {
        assert(b.children@[i] == a.children@[i]);
    }
    lemma_bpre_entries_eq(a, b, x);
    lemma_bseq_decomp(b, x);
    lemma_bseq_from_align(a, b, x + 1, 0);
    assert(bseq_from(b, x) == bseq(cb) + seq![q] + bseq_from(b, x + 1));
    assert(bseq(b) =~= bpre(a, x) + (bseq(cb) + seq![q]) + bseq_from(a, x + 1));
}

/// Removes the entry at `j`, which carries `k`, from the top node of a
/// well-formed subtree: directly at a leaf, by splicing in the in-order
/// predecessor at an internal node.
#[verifier::rlimit(100)]
fn bremove_found(
    n: BNode,
    j: usize,
    k: u64,
    maxk: usize,
    mink: usize,
    Ghost(lo): Ghost<int>,
    Ghost(hi): Ghost<int>,
) -> (r: (BNode, u64))
    requires
        maxk >= 3,
        mink == maxk / 2,
        bwf(n, lo, hi, maxk as int),
        lo < k < hi,
        j < n.entries@.len(),
        n.entries@[j as int].0 == k,
    ensures
        bwf_sub(r.0, lo, hi, maxk as int),
        r.0.entries@.len() >= n.entries@.len() - 1,
        bseq(r.0) == remove_key(bseq(n), k),
        has_key(bseq(n), k),
        r.1 == map_of(bseq(n))[k],
        bdepth(r.0) == bdepth(n),
{
    let ghost m = maxk as int;
    let ghost orig = n;
    let ghost e = n.entries@;
    let mut n = n;
    let ghost jj = j as int;
    proof {
        lemma_loose(orig, lo, hi, m);
        lemma_entry_window(orig, lo, hi, m, jj);
        let p = bpre(orig, jj) + childseq(orig, jj);
        let t = bseq_from(orig, jj + 1);
        lemma_window(p, seq![e[jj]], t, k, k);
        assert(has_key(seq![e[jj]], k)) by {
            assert(seq![e[jj]][0].0 == k);
        }
        assert(has_key(bseq(orig), k));
        assert(map_of(seq![e[jj]])[k] == e[jj].1) by {
            assert(seq![e[jj]].drop_first() =~= Seq::<(u64, u64)>::empty());
        }
        assert(remove_key(seq![e[jj]], k) =~= Seq::<(u64, u64)>::empty());
        assert(remove_key(bseq(orig), k) == p + Seq::<(u64, u64)>::empty() + t);
    }
    if n.children.len() == 0 {
        // A leaf: the entry leaves directly.
        let out = n.entries.remove(j);
        proof {
            lemma_bseq_leaf_from(orig, 0);
            assert(bseq(orig) == e.skip(0));
            assert(e.skip(0) =~= e);
            lemma_bseq_leaf_from(n, 0);
            assert(bseq(n) == n.entries@.skip(0));
            assert(n.entries@.skip(0) =~= n.entries@);
            lemma_bpre_leaf(orig, jj);
            assert(childseq(orig, jj) =~= Seq::<(u64, u64)>::empty());
            assert(bseq_from(orig, jj + 1) =~= e.skip(jj + 1)) by {
                lemma_bseq_leaf_from(orig, jj + 1);
            }
            assert(n.entries@ =~= (bpre(orig, jj) + childseq(orig, jj)) + Seq::<(
                u64,
                u64,
            )>::empty() + bseq_from(orig, jj + 1));
            assert(bwf_sub(n, lo, hi, m)) by {
                assert(forall|i: int|
                    0 <= i < jj ==> #[trigger] n.entries@[i] == e[i]);
                assert(forall|i: int|
                    jj <= i < n.entries@.len() ==> #[trigger] n.entries@[i] == e[i + 1]);
            }
        }
        (n, out.1)
    } else {
        // Internal: splice the in-order predecessor in.
        let child = n.children.remove(j);
        proof {
            assert(child == orig.children@[jj]);
            assert(chi(e, hi, jj) == k as int);
            assert(bwf(child, clo(e, lo, jj), k as int, m)) by {
                assert(bwf_sub(orig.children@[jj], clo(e, lo, jj), chi(e, hi, jj), m));
                assert(orig.children@[jj].entries@.len() >= lo_occ(m));
                assert(lo_occ(m) >= 1);
            }
        }
        let (child2, rk, rv) = bpop_max(
            child,
            maxk,
            mink,
            Ghost(clo(e, lo, jj)),
            Ghost(k as int),
        );
        let ccnt = child2.entries.len();
        let out = n.entries.remove(j);
        n.entries.insert(j, (rk, rv));
        n.children.insert(j, child2);
        proof {
            assert(n.entries@ =~= e.update(jj, (rk, rv)));
            assert(n.children@ =~= orig.children@.update(jj, child2));
            assert(out == e[jj]);
            lemma_rebuild_pred(orig, n, jj, m, lo, hi, (rk, rv));
            // The child's pairs, its last pair back in entry position,
            // are the child's pairs unchanged.
            assert(bseq(child).len() >= 1) by {
                lemma_loose(child, clo(e, lo, jj), k as int, m);
                lemma_bseq_props(child, clo(e, lo, jj), k as int, m);
            }
            assert(bseq(child2) + seq![(rk, rv)] =~= bseq(child));
            assert(childseq(orig, jj) == bseq(child));
            assert(bseq(n) == remove_key(bseq(orig), k)) by {
                assert(bseq(n) =~= (bpre(orig, jj) + childseq(orig, jj)) + Seq::<(
                    u64,
                    u64,
                )>::empty() + bseq_from(orig, jj + 1));
            }
        }
        let out2: BNode;
        if ccnt < mink {
            proof {
                assert(bwf_except(n, lo, hi, m, jj));
            }
            out2 = fix_underflow(n, j, maxk, mink, Ghost(lo), Ghost(hi));
        } else {
            proof {
                assert(bwf_loose(n, lo, hi, m)) by {
                    assert(ccnt >= mink);
                    assert(lo_occ(m) <= mink as int);
                }
                lemma_loose(n, lo, hi, m);
            }
            out2 = n;
        }
        (out2, out.1)
    }
}

/// Removes the pair carrying `k`, if any, from a well-formed subtree. A
/// key found in a leaf leaves directly; one found in an internal node is
/// replaced by its in-order predecessor, pulled from the child before it;
/// an underfull node on the way back up merges with a neighbour.
#[verifier::rlimit(100)]
fn bremove(
    n: BNode,
    k: u64,
    maxk: usize,
    mink: usize,
    Ghost(lo): Ghost<int>,
    Ghost(hi): Ghost<int>,
) -> (r: (BNode, Option<u64>))
    requires
        maxk >= 3,
        mink == maxk / 2,
        bwf(n, lo, hi, maxk as int),
        lo < k < hi,
    ensures
        bwf_sub(r.0, lo, hi, maxk as int),
        r.0.entries@.len() >= n.entries@.len() - 1,
        bseq(r.0) == remove_key(bseq(n), k),
        r.1 == (if has_key(bseq(n), k) {
            Some(map_of(bseq(n))[k])
        } else {
            None
        }),
        bdepth(r.0) == bdepth(n),
    decreases n,
{
    let ghost m = maxk as int;
    let ghost orig = n;
    let ghost e = n.entries@;
    let mut n = n;
    proof {
        lemma_loose(orig, lo, hi, m);
    }
    let j = seek(&n.entries, k);
    let ghost jj = j as int;
    if j < n.entries.len() && n.entries[j].0 == k {
        // The key lives in this node.
        let (out2, v) = bremove_found(n, j, k, maxk, mink, Ghost(lo), Ghost(hi));
        (out2, Some(v))
    } else if n.children.len() == 0 {
        // A leaf that lacks the key: an empty answer, nothing changes.
        proof {
            assert(clo(e, lo, jj) < k < chi(e, hi, jj)) by {
                if jj < e.len() {
                    assert(e[jj].0 >= k && e[jj].0 != k);
                }
            }
            lemma_node_window(orig, lo, hi, m, jj, k);
            lemma_window(bpre(orig, jj), childseq(orig, jj), tailseq(orig, jj), k, k);
            assert(childseq(orig, jj) =~= Seq::<(u64, u64)>::empty());
            assert(!has_key(Seq::<(u64, u64)>::empty(), k));
            assert(remove_key(Seq::<(u64, u64)>::empty(), k) =~= Seq::<(u64, u64)>::empty());
            assert(remove_key(bseq(orig), k) =~= bseq(orig));
        }
        (n, None)
    } else {
        // Descend into the child that owns the key's window.
        proof {
            assert(clo(e, lo, jj) < k < chi(e, hi, jj)) by {
                if jj < e.len() {
                    assert(e[jj].0 >= k && e[jj].0 != k);
                }
            }
            lemma_node_window(orig, lo, hi, m, jj, k);
            lemma_window(bpre(orig, jj), childseq(orig, jj), tailseq(orig, jj), k, k);
        }
        let child = n.children.remove(j);
        proof {
            assert(child == orig.children@[jj]);
            assert(bwf(child, clo(e, lo, jj), chi(e, hi, jj), m)) by {
                assert(bwf_sub(orig.children@[jj], clo(e, lo, jj), chi(e, hi, jj), m));
                assert(orig.children@[jj].entries@.len() >= lo_occ(m));
                assert(lo_occ(m) >= 1);
            }
            assert(childseq(orig, jj) == bseq(child));
        }
        let (child2, out) = bremove(
            child,
            k,
            maxk,
            mink,
            Ghost(clo(e, lo, jj)),
            Ghost(chi(e, hi, jj)),
        );
        let ccnt = child2.entries.len();
        n.children.insert(j, child2);
        proof {
            assert(n.entries@ == e);
            assert(n.children@ =~= orig.children@.update(jj, child2));
            assert(bdepth(child2) == bdepth(orig.children@[jj]));
            lemma_rebuild_one_child(orig, n, jj, m, lo, hi);
            assert(bseq(n) =~= bpre(orig, jj) + remove_key(childseq(orig, jj), k) + tailseq(
                orig,
                jj,
            ));
            assert(bseq(n) == remove_key(bseq(orig), k));
        }
        let out2: BNode;
        if ccnt < mink {
            proof {
                assert(bwf_except(n, lo, hi, m, jj));
            }
            out2 = fix_underflow(n, j, maxk, mink, Ghost(lo), Ghost(hi));
        } else {
            proof {
                assert(bwf_loose(n, lo, hi, m)) by {
                    assert(ccnt >= mink);
                    assert(lo_occ(m) <= mink as int);
                }
                lemma_loose(n, lo, hi, m);
            }
            out2 = n;
        }
        (out2, out)
    }
}

/// One past the largest key value: the upper bound of every key window.
spec fn key_space() -> int {
    u64::MAX as int + 1
}

impl BTree {
    /// The stored pairs in ascending key order: the model that iteration
    /// and the structure are specified against.
    pub closed spec fn to_seq(self) -> Seq<(u64, u64)> {
        match self.root {
            None => Seq::empty(),
            Some(b) => bseq(*b),
        }
    }

    /// The configured order: the entry count at which a node splits.
    pub closed spec fn spec_order(self) -> int {
        self.max_keys as int
    }

    /// The structural invariant: a valid order, sorted keys in every
    /// node, child counts one above entry counts, the occupancy rule in
    /// every node below the root, all leaves at one depth, and an
    /// accurate length field.
    pub closed spec fn well_formed(self) -> bool {
        &&& self.max_keys >= 3
        &&& self.min_keys == self.max_keys / 2
        &&& match self.root {
            None => self.len == 0,
            Some(b) => bwf(*b, -1, key_space(), self.max_keys as int) && self.len == bseq(
                *b,
            ).len(),
        }
    }

    /// Creates an empty tree that splits nodes at `order` entries; an
    /// order below three could not satisfy the occupancy rule.
    pub fn new(order: usize) -> (t: BTree)
        requires
            order >= 3,
        ensures
            t.well_formed(),
            t.to_seq() == Seq::<(u64, u64)>::empty(),
            t@ == Map::<u64, u64>::empty(),
            t.spec_order() == order,
    {
        BTree { root: None, len: 0, max_keys: order, min_keys: order / 2 }
    }

    /// Inserts the pair, overwriting the value if the key is present.
    pub fn insert(&mut self, k: u64, v: u64)
        requires
            old(self).well_formed(),
            old(self).to_seq().len() < usize::MAX,
        ensures
            final(self).well_formed(),
            final(self).to_seq() == sorted_insert(old(self).to_seq(), k, v),
            final(self).to_seq().len() <= old(self).to_seq().len() + 1,
            final(self)@ == old(self)@.insert(k, v),
            final(self).spec_order() == old(self).spec_order(),
    {
        let ghost m = self.max_keys as int;
        let mk = self.max_keys;
        let mn = self.min_keys;
        match self.root.take() {
            None => {
                let mut e: Vec<(u64, u64)> = Vec::new();
                e.push((k, v));
                let node = BNode { entries: e, children: Vec::new() };
                proof {
                    assert(node.entries@ =~= seq![(k, v)]);
                    lemma_bseq_leaf_from(node, 0);
                    assert(bseq(node) == node.entries@.skip(0));
                    assert(node.entries@.skip(0) =~= seq![(k, v)]);
                    lemma_sorted_insert_props(Seq::<(u64, u64)>::empty(), k, v);
                    assert(sorted_insert(Seq::<(u64, u64)>::empty(), k, v) == seq![(k, v)]);
                    assert(hi_occ(m) >= 2);
                }
                self.root = Some(Box::new(node));
                self.len = 1;
            }
            Some(b) => {
                proof {
                    lemma_loose(*b, -1, key_space(), m);
                    lemma_bseq_props(*b, -1, key_space(), m);
                    lemma_sorted_insert_props(bseq(*b), k, v);
                }
                let (n2, added, sp) = binsert(*b, k, v, mk, mn, Ghost(-1), Ghost(key_space()));
                match sp {
                    None => {
                        self.root = Some(Box::new(n2));
                    }
                    Some((med, rb)) => {
                        let mut ch: Vec<BNode> = Vec::new();
                        let ghost dep = bdepth(n2);
                        ch.push(n2);
                        let rnode = *rb;
                        ch.push(rnode);
                        let mut ee: Vec<(u64, u64)> = Vec::new();
                        ee.push(med);
                        let root = BNode { entries: ee, children: ch };
                        proof {
                            assert(root.entries@ =~= seq![med]);
                            assert(root.children@.len() == 2);
                            assert(root.children@[0] == ch@[0]);
                            assert(bseq(root) == bseq(ch@[0]) + seq![med] + bseq(ch@[1])) by {
                                assert(bseq_from(root, 0) == bseq_from(root.children@[0], 0)
                                    + seq![med] + bseq_from(root, 1));
                                assert(bseq_from(root, 1) == bseq_from(root.children@[1], 0));
                            }
                            assert(bwf(root, -1, key_space(), m)) by {
                                assert(hi_occ(m) >= 2);
                                assert forall|i: int| 0 <= i < 2 implies bwf_sub(
                                    #[trigger] root.children@[i],
                                    clo(root.entries@, -1, i),
                                    chi(root.entries@, key_space(), i),
                                    m,
                                ) by {
                                    assert(clo(root.entries@, -1, 0) == -1);
                                    assert(chi(root.entries@, key_space(), 0) == med.0 as int);
                                    assert(clo(root.entries@, -1, 1) == med.0 as int);
                                    assert(chi(root.entries@, key_space(), 1) == key_space());
                                }
                                assert forall|i: int| 0 <= i < 2 implies bdepth(
                                    #[trigger] root.children@[i],
                                ) + 1 == bdepth(root) by {
                                    assert(bdepth(root) == 1 + bdepth(root.children@[0]));
                                    assert(bdepth(root.children@[0]) == dep);
                                    assert(bdepth(root.children@[1]) == dep);
                                }
                            }
                        }
                        self.root = Some(Box::new(root));
                    }
                }
                if added {
                    self.len = self.len + 1;
                }
            }
        }
    }

    /// Inserts the pair, updating the value of an existing key.
    pub fn set(&mut self, k: u64, v: u64)
        requires
            old(self).well_formed(),
            old(self).to_seq().len() < usize::MAX,
        ensures
            final(self).well_formed(),
            final(self).to_seq() == sorted_insert(old(self).to_seq(), k, v),
            final(self).to_seq().len() <= old(self).to_seq().len() + 1,
            final(self)@ == old(self)@.insert(k, v),
            final(self).spec_order() == old(self).spec_order(),
    {
        self.insert(k, v)
    }

    /// The number of stored pairs.
    pub fn len(&self) -> (r: usize)
        requires
            self.well_formed(),
        ensures
            r == self.to_seq().len(),
    {
        self.len
    }

    /// Whether no pair is stored.
    pub fn is_empty(&self) -> (r: bool)
        requires
            self.well_formed(),
        ensures
            r == (self.to_seq().len() == 0),
            r == (self@ == Map::<u64, u64>::empty()),
    {
        proof {
            if self.to_seq().len() == 0 {
                assert(self@ =~= Map::<u64, u64>::empty());
            } else {
                match &self.root {
                    None => {}
                    Some(b) => {
                        lemma_loose(**b, -1, key_space(), self.max_keys as int);
                        lemma_bseq_props(**b, -1, key_space(), self.max_keys as int);
                        lemma_map_of_index(self.to_seq(), 0);
                    }
                }
            }
        }
        self.len == 0
    }

    /// Empties the tree, keeping its configured order.
    pub fn clear(&mut self)
        requires
            old(self).well_formed(),
        ensures
            final(self).well_formed(),
            final(self).to_seq() == Seq::<(u64, u64)>::empty(),
            final(self)@ == Map::<u64, u64>::empty(),
            final(self).spec_order() == old(self).spec_order(),
    {
        let mk = self.max_keys;
        let mn = self.min_keys;
        *self = BTree { root: None, len: 0, max_keys: mk, min_keys: mn };
    }
}

impl View for BTree {
    type V = Map<u64, u64>;

    /// The finite map that the tree stores.
    open spec fn view(&self) -> Map<u64, u64> {
        map_of(self.to_seq())
    }
}

/// Looks a key up in a well-formed subtree.
fn bget<'a>(
    n: &'a BNode,
    k: u64,
    Ghost(lo): Ghost<int>,
    Ghost(hi): Ghost<int>,
    Ghost(m): Ghost<int>,
) -> (r: Option<&'a u64>)
    requires
        bwf_loose(*n, lo, hi, m),
        lo < k < hi,
    ensures
        r == (if map_of(bseq(*n)).dom().contains(k) {
            Some(&map_of(bseq(*n))[k])
        } else {
            None
        }),
    decreases *n,
{
    let j = seek(&n.entries, k);
    let ghost jj = j as int;
    let ghost e = n.entries@;
    if j < n.entries.len() && n.entries[j].0 == k {
        proof {
            lemma_entry_window(*n, lo, hi, m, jj);
            let p = bpre(*n, jj) + childseq(*n, jj);
            let t = bseq_from(*n, jj + 1);
            lemma_window(p, seq![e[jj]], t, k, k);
            assert(has_key(seq![e[jj]], k)) by {
                assert(seq![e[jj]][0].0 == k);
            }
            assert(map_of(seq![e[jj]])[k] == e[jj].1) by {
                assert(seq![e[jj]].drop_first() =~= Seq::<(u64, u64)>::empty());
            }
            assert(map_of(bseq(*n)).dom().contains(k));
            assert(map_of(bseq(*n))[k] == e[jj].1);
        }
        let pair = &n.entries[j];
        Some(&pair.1)
    } else if n.children.len() == 0 {
        proof {
            assert(clo(e, lo, jj) < k < chi(e, hi, jj)) by {
                if jj < e.len() {
                    assert(e[jj].0 >= k && e[jj].0 != k);
                }
            }
            lemma_node_window(*n, lo, hi, m, jj, k);
            lemma_window(bpre(*n, jj), childseq(*n, jj), tailseq(*n, jj), k, k);
            assert(childseq(*n, jj) =~= Seq::<(u64, u64)>::empty());
            assert(!has_key(Seq::<(u64, u64)>::empty(), k));
        }
        None
    } else {
        proof {
            assert(clo(e, lo, jj) < k < chi(e, hi, jj)) by {
                if jj < e.len() {
                    assert(e[jj].0 >= k && e[jj].0 != k);
                }
            }
            lemma_node_window(*n, lo, hi, m, jj, k);
            lemma_window(bpre(*n, jj), childseq(*n, jj), tailseq(*n, jj), k, k);
            assert(bwf_sub(n.children@[jj], clo(e, lo, jj), chi(e, hi, jj), m));
            lemma_loose(n.children@[jj], clo(e, lo, jj), chi(e, hi, jj), m);
            assert(childseq(*n, jj) == bseq(n.children@[jj]));
            lemma_map_of_contains(bseq(n.children@[jj]), k);
        }
        bget(&n.children[j], k, Ghost(clo(e, lo, jj)), Ghost(chi(e, hi, jj)), Ghost(m))
    }
}

impl BTree {
    /// Looks the value for a key up.
    pub fn get(&self, k: &u64) -> (r: Option<&u64>)
        requires
            self.well_formed(),
        ensures
            r == (if self@.dom().contains(*k) {
                Some(&self@[*k])
            } else {
                None
            }),
    {
        match &self.root {
            None => {
                proof {
                    lemma_map_of_contains(self.to_seq(), *k);
                }
                None
            }
            Some(b) => {
                proof {
                    lemma_loose(**b, -1, key_space(), self.max_keys as int);
                }
                bget(b, *k, Ghost(-1), Ghost(key_space()), Ghost(self.max_keys as int))
            }
        }
    }

    /// Whether a pair with the key is stored.
    pub fn contains(&self, k: &u64) -> (r: bool)
        requires
            self.well_formed(),
        ensures
            r == self@.dom().contains(*k),
    {
        self.get(k).is_some()
    }

    /// Removes the pair with the key and returns its value; an absent key
    /// is an empty answer, not an error.
    pub fn remove(&mut self, k: &u64) -> (r: Option<u64>)
        requires
            old(self).well_formed(),
        ensures
            final(self).well_formed(),
            final(self).to_seq() == remove_key(old(self).to_seq(), *k),
            final(self)@ == old(self)@.remove(*k),
            r == (if old(self)@.dom().contains(*k) {
                Some(old(self)@[*k])
            } else {
                None
            }),
            final(self).spec_order() == old(self).spec_order(),
    {
        let ghost m = self.max_keys as int;
        let mk = self.max_keys;
        let mn = self.min_keys;
        match self.root.take() {
            None => {
                proof {
                    assert(remove_key(old(self).to_seq(), *k) =~= old(self).to_seq());
                    assert(old(self)@.remove(*k) =~= old(self)@);
                    lemma_map_of_contains(old(self).to_seq(), *k);
                }
                None
            }
            Some(b) => {
                proof {
                    lemma_loose(*b, -1, key_space(), m);
                    lemma_bseq_props(*b, -1, key_space(), m);
                    lemma_remove_key_props(bseq(*b), *k);
                    lemma_map_of_contains(bseq(*b), *k);
                }
                let (n2, out) = bremove(*b, *k, mk, mn, Ghost(-1), Ghost(key_space()));
                let cnt = n2.entries.len();
                if cnt == 0 {
                    let BNode { entries: _, children: mut c2 } = n2;
                    if c2.len() > 0 {
                        let c = c2.pop().unwrap();
                        proof {
                            assert(c == n2.children@[0]);
                            assert(bwf(c, -1, key_space(), m)) by {
                                assert(bwf_sub(
                                    n2.children@[0],
                                    clo(n2.entries@, -1, 0),
                                    chi(n2.entries@, key_space(), 0),
                                    m,
                                ));
                                assert(n2.children@[0].entries@.len() >= lo_occ(m));
                                assert(lo_occ(m) >= 1);
                            }
                            assert(bseq(n2) == bseq(c)) by {
                                assert(bseq_from(n2, 0) == bseq_from(n2.children@[0], 0));
                            }
                        }
                        self.root = Some(Box::new(c));
                    } else {
                        proof {
                            lemma_bseq_leaf_from(n2, 0);
                            assert(bseq(n2) == n2.entries@.skip(0));
                            assert(n2.entries@.skip(0) =~= Seq::<(u64, u64)>::empty());
                        }
                        self.root = None;
                    }
                } else {
                    self.root = Some(Box::new(n2));
                }
                if out.is_some() {
                    self.len = self.len - 1;
                }
                out
            }
        }
    }

    /// Removes and returns the least pair, an empty answer when none.
    pub fn pop_min(&mut self) -> (r: Option<(u64, u64)>)
        requires
            old(self).well_formed(),
        ensures
            final(self).well_formed(),
            old(self).to_seq().len() == 0 ==> r is None && final(self).to_seq() == old(
                self).to_seq(),
            old(self).to_seq().len() > 0 ==> r == Some(old(self).to_seq()[0]) && final(
                self).to_seq() == old(self).to_seq().drop_first(),
            final(self).spec_order() == old(self).spec_order(),
    {
        let ghost m = self.max_keys as int;
        let mk = self.max_keys;
        let mn = self.min_keys;
        match self.root.take() {
            None => None,
            Some(b) => {
                proof {
                    lemma_loose(*b, -1, key_space(), m);
                    lemma_bseq_props(*b, -1, key_space(), m);
                }
                let (n2, rk, rv) = bpop_min(*b, mk, mn, Ghost(-1), Ghost(key_space()));
                proof {
                    lemma_bwf_sub_widen(n2, rk as int, key_space(), -1, key_space(), m);
                }
                let cnt = n2.entries.len();
                if cnt == 0 {
                    let BNode { entries: _, children: mut c2 } = n2;
                    if c2.len() > 0 {
                        let c = c2.pop().unwrap();
                        proof {
                            assert(c == n2.children@[0]);
                            assert(bwf(c, -1, key_space(), m)) by {
                                assert(bwf_sub(
                                    n2.children@[0],
                                    clo(n2.entries@, -1, 0),
                                    chi(n2.entries@, key_space(), 0),
                                    m,
                                ));
                                assert(n2.children@[0].entries@.len() >= lo_occ(m));
                                assert(lo_occ(m) >= 1);
                            }
                            assert(bseq(n2) == bseq(c)) by {
                                assert(bseq_from(n2, 0) == bseq_from(n2.children@[0], 0));
                            }
                        }
                        self.root = Some(Box::new(c));
                    } else {
                        proof {
                            lemma_bseq_leaf_from(n2, 0);
                            assert(bseq(n2) == n2.entries@.skip(0));
                            assert(n2.entries@.skip(0) =~= Seq::<(u64, u64)>::empty());
                        }
                        self.root = None;
                    }
                } else {
                    self.root = Some(Box::new(n2));
                }
                self.len = self.len - 1;
                Some((rk, rv))
            }
        }
    }

    /// Removes and returns the greatest pair, an empty answer when none.
    pub fn pop_max(&mut self) -> (r: Option<(u64, u64)>)
        requires
            old(self).well_formed(),
        ensures
            final(self).well_formed(),
            old(self).to_seq().len() == 0 ==> r is None && final(self).to_seq() == old(
                self).to_seq(),
            old(self).to_seq().len() > 0 ==> r == Some(old(self).to_seq().last()) && final(
                self).to_seq() == old(self).to_seq().drop_last(),
            final(self).spec_order() == old(self).spec_order(),
    {
        let ghost m = self.max_keys as int;
        let mk = self.max_keys;
        let mn = self.min_keys;
        match self.root.take() {
            None => None,
            Some(b) => {
                proof {
                    lemma_loose(*b, -1, key_space(), m);
                    lemma_bseq_props(*b, -1, key_space(), m);
                }
                let (n2, rk, rv) = bpop_max(*b, mk, mn, Ghost(-1), Ghost(key_space()));
                proof {
                    lemma_bwf_sub_widen(n2, -1, rk as int, -1, key_space(), m);
                }
                let cnt = n2.entries.len();
                if cnt == 0 {
                    let BNode { entries: _, children: mut c2 } = n2;
                    if c2.len() > 0 {
                        let c = c2.pop().unwrap();
                        proof {
                            assert(c == n2.children@[0]);
                            assert(bwf(c, -1, key_space(), m)) by {
                                assert(bwf_sub(
                                    n2.children@[0],
                                    clo(n2.entries@, -1, 0),
                                    chi(n2.entries@, key_space(), 0),
                                    m,
                                ));
                                assert(n2.children@[0].entries@.len() >= lo_occ(m));
                                assert(lo_occ(m) >= 1);
                            }
                            assert(bseq(n2) == bseq(c)) by {
                                assert(bseq_from(n2, 0) == bseq_from(n2.children@[0], 0));
                            }
                        }
                        self.root = Some(Box::new(c));
                    } else {
                        proof {
                            lemma_bseq_leaf_from(n2, 0);
                            assert(bseq(n2) == n2.entries@.skip(0));
                            assert(n2.entries@.skip(0) =~= Seq::<(u64, u64)>::empty());
                        }
                        self.root = None;
                    }
                } else {
                    self.root = Some(Box::new(n2));
                }
                self.len = self.len - 1;
                Some((rk, rv))
            }
        }
    }
}

/// Every node of the subtree holds at least one entry, and an internal
/// node one more child than it has entries: what the traversal needs to
/// know it always makes progress.
spec fn bpos(n: BNode) -> bool
    decreases n,
{
    &&& n.entries@.len() >= 1
    &&& (n.children@.len() == 0 || n.children@.len() == n.entries@.len() + 1)
    &&& (forall|i: int| 0 <= i < n.children@.len() ==> bpos(#[trigger] n.children@[i]))
}

proof fn lemma_bwf_pos(n: BNode, lo: int, hi: int, m: int)
    requires
        bwf_sub(n, lo, hi, m),
        n.entries@.len() >= 1,
        m >= 3,
    ensures
        bpos(n),
    decreases n,
{
    let e = n.entries@;
    assert forall|i: int| 0 <= i < n.children@.len() implies bpos(#[trigger] n.children@[i]) by {
        assert(bwf_sub(n.children@[i], clo(e, lo, i), chi(e, hi, i), m));
        assert(n.children@[i].entries@.len() >= lo_occ(m));
        lemma_bwf_pos(n.children@[i], clo(e, lo, i), chi(e, hi, i), m);
    }
}

/// One step of traversal work: a subtree still to walk, or a pair whose
/// surroundings are already scheduled.
enum Task<'a> {
    Visit(&'a BNode),
    Emit(u64, u64),
}

/// The pairs a single piece of work will eventually yield.
spec fn task_bseq(t: Task) -> Seq<(u64, u64)> {
    match t {
        Task::Visit(n) => bseq(*n),
        Task::Emit(k, v) => seq![(k, v)],
    }
}

/// The pairs a whole work stack will eventually yield, top of the stack
/// first.
spec fn stack_bseq(s: Seq<Task>) -> Seq<(u64, u64)>
    decreases s.len(),
{
    if s.len() == 0 {
        Seq::empty()
    } else {
        task_bseq(s.last()) + stack_bseq(s.drop_last())
    }
}

/// How much work a single piece still costs; expanding a node into its
/// children and entries strictly cheapens the stack when the node holds
/// an entry.
spec fn task_bw(t: Task) -> nat {
    match t {
        Task::Visit(n) => 3 * bseq(*n).len(),
        Task::Emit(k, v) => 1,
    }
}

/// How much work a whole stack still costs.
spec fn stack_bw(s: Seq<Task>) -> nat
    decreases s.len(),
{
    if s.len() == 0 {
        0
    } else {
        task_bw(s.last()) + stack_bw(s.drop_last())
    }
}

/// Every subtree waiting on the stack makes progress when visited.
spec fn stack_pos(s: Seq<Task>) -> bool {
    forall|i: int| 0 <= i < s.len() ==> (#[trigger] s[i] matches Task::Visit(n) ==> bpos(*n))
}

/// Collects the pairs of a subtree in ascending key order, driving an
/// explicit work stack instead of recursing: a visited node schedules its
/// children and entries so that the smallest keys are handled first.
#[verifier::rlimit(100)]
fn bfill(root: &BNode, out: &mut Vec<(u64, u64)>)
    requires
        bpos(*root),
    ensures
        final(out)@ == old(out)@ + bseq(*root),
{
    let mut stack: Vec<Task> = Vec::new();
    stack.push(Task::Visit(root));
    proof {
        assert(stack@.drop_last() =~= Seq::<Task>::empty());
        assert(task_bseq(stack@.last()) == bseq(*root));
        assert(stack_bseq(stack@) == task_bseq(stack@.last()) + stack_bseq(stack@.drop_last()));
        assert(out@ + stack_bseq(stack@) =~= old(out)@ + bseq(*root));
        assert(stack_pos(stack@));
    }
    while stack.len() != 0
        invariant
            out@ + stack_bseq(stack@) == old(out)@ + bseq(*root),
            stack_pos(stack@),
        decreases stack_bw(stack@),
    {
        let ghost stack0 = stack@;
        let t = stack.pop().unwrap();
        proof {
            assert(stack@ == stack0.drop_last());
            assert(t == stack0.last());
            assert(stack_bseq(stack0) == task_bseq(t) + stack_bseq(stack@));
            assert(stack_pos(stack@)) by {
                assert(forall|i: int| 0 <= i < stack@.len() ==> stack@[i] == stack0[i]);
            }
        }
        match t {
            Task::Emit(k, v) => {
                out.push((k, v));
                proof {
                    assert(out@ + stack_bseq(stack@) =~= old(out)@ + bseq(*root));
                }
            }
            Task::Visit(n) => {
                let ghost base = stack@;
                let ghost e = n.entries@;
                let cnt = n.entries.len();
                let internal = n.children.len() > 0 && n.children.len() - 1 == cnt;
                if internal {
                    stack.push(Task::Visit(&n.children[cnt]));
                    proof {
                        assert(stack@.last() == Task::Visit(&n.children@[cnt as int]));
                        assert(stack@.drop_last() == base);
                        assert(bseq_from(*n, cnt as int) == bseq(n.children@[cnt as int]));
                        assert(bpos(n.children@[cnt as int]));
                        assert(stack_pos(stack@)) by {
                            assert(forall|x: int| 0 <= x < base.len() ==> stack@[x] == base[x]);
                        }
                    }
                }
                proof {
                    assert(stack_bseq(stack@) =~= bseq_from(*n, cnt as int) + stack_bseq(base));
                    assert(stack_bw(stack@) == 3 * bseq_from(*n, cnt as int).len() + stack_bw(
                        base,
                    ));
                }
                let mut i: usize = cnt;
                while i > 0
                    invariant
                        i <= cnt,
                        cnt == n.entries@.len(),
                        e == n.entries@,
                        bpos(*n),
                        internal == (n.children@.len() == n.entries@.len() + 1),
                        stack_bseq(stack@) == bseq_from(*n, i as int) + stack_bseq(base),
                        stack_bw(stack@) + 2 * (n.entries@.len() - i) == 3 * bseq_from(
                            *n,
                            i as int,
                        ).len() + stack_bw(base),
                        stack_pos(stack@),
                    decreases i,
                {
                    let ghost mid = stack@;
                    i = i - 1;
                    stack.push(Task::Emit(n.entries[i].0, n.entries[i].1));
                    proof {
                        assert(stack@.last() == Task::Emit(e[i as int].0, e[i as int].1));
                        assert(stack@.drop_last() == mid);
                        assert(task_bseq(stack@.last()) =~= seq![e[i as int]]);
                        assert(stack_bseq(stack@) =~= seq![e[i as int]] + stack_bseq(mid));
                        assert(stack_bw(stack@) == 1 + stack_bw(mid));
                        assert(stack_pos(stack@)) by {
                            assert(forall|x: int| 0 <= x < mid.len() ==> stack@[x] == mid[x]);
                        }
                    }
                    let ghost mid2 = stack@;
                    if internal {
                        stack.push(Task::Visit(&n.children[i]));
                        proof {
                            assert(stack@.last() == Task::Visit(&n.children@[i as int]));
                            assert(stack@.drop_last() == mid2);
                            assert(bpos(n.children@[i as int]));
                            assert(stack_bseq(stack@) =~= bseq(n.children@[i as int])
                                + stack_bseq(mid2));
                            assert(stack_bw(stack@) == 3 * bseq(n.children@[i as int]).len()
                                + stack_bw(mid2));
                            assert(stack_pos(stack@)) by {
                                assert(forall|x: int|
                                    0 <= x < mid2.len() ==> stack@[x] == mid2[x]);
                            }
                        }
                    }
                    proof {
                        assert(bseq_from(*n, i as int) == childseq(*n, i as int) + seq![
                            e[i as int],
                        ] + bseq_from(*n, i + 1)) by {
                            if internal {
                                assert(bseq_from(*n, i as int) == bseq_from(
                                    n.children@[i as int],
                                    0,
                                ) + seq![e[i as int]] + bseq_from(*n, i + 1));
                            } else {
                                assert(bseq_from(*n, i as int) =~= childseq(*n, i as int) + seq![
                                    e[i as int],
                                ] + bseq_from(*n, i + 1));
                            }
                        }
                        assert(stack_bseq(stack@) =~= bseq_from(*n, i as int) + stack_bseq(base));
                    }
                }
                proof {
                    assert(bseq_from(*n, 0) == bseq(*n));
                    assert(out@ + stack_bseq(stack@) =~= old(out)@ + bseq(*root));
                    // The expansion is cheaper than the visit it replaces.
                    assert(stack_bw(stack@) + 2 * n.entries@.len() == 3 * bseq(*n).len()
                        + stack_bw(base));
                    assert(n.entries@.len() >= 1);
                    assert(stack_bw(stack0) == 3 * bseq(*n).len() + stack_bw(base));
                    assert(stack_bw(stack@) < stack_bw(stack0));
                }
            }
        }
    }
    proof {
        assert(out@ =~= old(out)@ + bseq(*root));
    }
}

/// A two-ended cursor over a snapshot of the tree's pairs in ascending
/// key order: the front and the back advance independently and meet
/// exactly once, emitting every pair exactly once.
pub struct Iter {
    items: Vec<(u64, u64)>,
    front: usize,
    back: usize,
}

impl Iter {
    /// Every pair the cursor ranges over, in ascending key order.
    pub closed spec fn all_pairs(self) -> Seq<(u64, u64)> {
        self.items@
    }

    /// How many pairs the front has emitted.
    pub closed spec fn front_at(self) -> int {
        self.front as int
    }

    /// Where the back stands: everything from here on has been emitted.
    pub closed spec fn back_at(self) -> int {
        self.back as int
    }

    /// The cursor's invariant: the two ends never cross.
    pub closed spec fn well_formed(self) -> bool {
        self.front <= self.back <= self.items@.len()
    }

    /// The next pair in ascending order, an empty answer once the two
    /// ends have met.
    pub fn next(&mut self) -> (r: Option<(u64, u64)>)
        requires
            old(self).well_formed(),
        ensures
            final(self).well_formed(),
            final(self).all_pairs() == old(self).all_pairs(),
            final(self).back_at() == old(self).back_at(),
            if old(self).front_at() < old(self).back_at() {
                r == Some(old(self).all_pairs()[old(self).front_at()]) && final(self).front_at()
                    == old(self).front_at() + 1
            } else {
                r is None && final(self).front_at() == old(self).front_at()
            },
    {
        if self.front < self.back {
            let p = self.items[self.front];
            self.front = self.front + 1;
            Some(p)
        } else {
            None
        }
    }

    /// The next pair in descending order, an empty answer once the two
    /// ends have met.
    pub fn next_back(&mut self) -> (r: Option<(u64, u64)>)
        requires
            old(self).well_formed(),
        ensures
            final(self).well_formed(),
            final(self).all_pairs() == old(self).all_pairs(),
            final(self).front_at() == old(self).front_at(),
            if old(self).front_at() < old(self).back_at() {
                r == Some(old(self).all_pairs()[old(self).back_at() - 1]) && final(self).back_at()
                    == old(self).back_at() - 1
            } else {
                r is None && final(self).back_at() == old(self).back_at()
            },
    {
        if self.front < self.back {
            self.back = self.back - 1;
            Some(self.items[self.back])
        } else {
            None
        }
    }
}

/// When the two ends of a cursor have met, the pairs the front emitted
/// followed by the pairs the back holds are exactly all pairs: nothing is
/// emitted twice and nothing is skipped, whatever order drove the ends.
pub proof fn lemma_iter_convergence(it: Iter)
    requires
        it.well_formed(),
        it.front_at() == it.back_at(),
    ensures
        it.all_pairs().take(it.front_at()) + it.all_pairs().skip(it.back_at()) == it.all_pairs(),
{
    assert(it.all_pairs().take(it.front_at()) + it.all_pairs().skip(it.back_at())
        =~= it.all_pairs());
}

/// A draining cursor that owns the tree and hands its pairs out from
/// either end, least keys forward and greatest keys backward.
pub struct IntoIter {
    tree: BTree,
}

impl IntoIter {
    /// The pairs not yet handed out, in ascending key order.
    pub closed spec fn remaining(self) -> Seq<(u64, u64)> {
        self.tree.to_seq()
    }

    /// The owned tree stays well-formed while it drains.
    pub closed spec fn well_formed(self) -> bool {
        self.tree.well_formed()
    }

    /// Extracts the least remaining pair.
    pub fn next(&mut self) -> (r: Option<(u64, u64)>)
        requires
            old(self).well_formed(),
        ensures
            final(self).well_formed(),
            old(self).remaining().len() == 0 ==> r is None && final(self).remaining() == old(
                self).remaining(),
            old(self).remaining().len() > 0 ==> r == Some(old(self).remaining()[0]) && final(
                self).remaining() == old(self).remaining().drop_first(),
    {
        self.tree.pop_min()
    }

    /// Extracts the greatest remaining pair.
    pub fn next_back(&mut self) -> (r: Option<(u64, u64)>)
        requires
            old(self).well_formed(),
        ensures
            final(self).well_formed(),
            old(self).remaining().len() == 0 ==> r is None && final(self).remaining() == old(
                self).remaining(),
            old(self).remaining().len() > 0 ==> r == Some(old(self).remaining().last()) && final(
                self).remaining() == old(self).remaining().drop_last(),
    {
        self.tree.pop_max()
    }
}

impl BTree {
    /// A two-ended cursor over the stored pairs in ascending key order.
    pub fn iter(&self) -> (it: Iter)
        requires
            self.well_formed(),
        ensures
            it.well_formed(),
            it.all_pairs() == self.to_seq(),
            it.front_at() == 0,
            it.back_at() == self.to_seq().len(),
    {
        let mut items: Vec<(u64, u64)> = Vec::new();
        match &self.root {
            None => {}
            Some(b) => {
                proof {
                    lemma_bwf_pos(**b, -1, key_space(), self.max_keys as int);
                }
                bfill(b, &mut items);
            }
        }
        proof {
            assert(items@ =~= self.to_seq());
        }
        let n = items.len();
        Iter { items, front: 0, back: n }
    }

    /// A draining cursor that consumes the tree.
    pub fn into_iter(self) -> (it: IntoIter)
        requires
            self.well_formed(),
        ensures
            it.well_formed(),
            it.remaining() == self.to_seq(),
    {
        IntoIter { tree: self }
    }

    /// Builds a tree of order five by inserting the pairs in order, later
    /// pairs overwriting earlier ones on an equal key.
    pub fn from_iter(pairs: Vec<(u64, u64)>) -> (t: BTree)
        ensures
            t.well_formed(),
            t@ == folded_map(pairs@),
            t.spec_order() == 5,
    {
        let mut t = BTree::new(5);
        let n = pairs.len();
        let mut i: usize = 0;
        while i < n
            invariant
                i <= n,
                n == pairs@.len(),
                t.well_formed(),
                t@ == folded_map(pairs@.take(i as int)),
                t.to_seq().len() <= i,
                t.spec_order() == 5,
            decreases n - i,
        {
            let (k, v) = pairs[i];
            proof {
                match &t.root {
                    None => {}
                    Some(b) => {
                        lemma_loose(**b, -1, key_space(), t.max_keys as int);
                        lemma_bseq_props(**b, -1, key_space(), t.max_keys as int);
                    }
                }
                lemma_sorted_insert_props(t.to_seq(), k, v);
            }
            t.insert(k, v);
            i = i + 1;
            proof {
                assert(pairs@.take(i as int).drop_last() =~= pairs@.take(i - 1));
                assert(pairs@.take(i as int).last() == pairs@[i - 1]);
            }
        }
        proof {
            assert(pairs@.take(n as int) =~= pairs@);
        }
        t
    }
}

/// In-order iteration of a well-formed tree yields strictly increasing
/// keys, and the keys it yields are exactly the keys of the stored map.
pub proof fn lemma_inorder_sorted(t: BTree)
    requires
        t.well_formed(),
    ensures
        ssorted(t.to_seq()),
        forall|x: u64| #[trigger] has_key(t.to_seq(), x) <==> t@.dom().contains(x),
{
    match t.root {
        None => {}
        Some(b) => {
            lemma_loose(*b, -1, key_space(), t.spec_order());
            lemma_bseq_props(*b, -1, key_space(), t.spec_order());
        }
    }
    assert forall|x: u64| #[trigger] has_key(t.to_seq(), x) <==> t@.dom().contains(x) by {
        lemma_map_of_contains(t.to_seq(), x);
    }
}

/// What the occupancy law says of one node and everything below it:
/// every child holds between `mn` and `mx` entries, an internal node has
/// one more child than it has entries, and all children stand at one
/// depth.
spec fn occ_node(n: BNode, mn: int, mx: int) -> bool
    decreases n,
{
    &&& (n.children@.len() == 0 || n.children@.len() == n.entries@.len() + 1)
    &&& (forall|i: int|
        0 <= i < n.children@.len() ==> mn <= (#[trigger] n.children@[i]).entries@.len() <= mx)
    &&& (forall|i: int|
        0 <= i < n.children@.len() ==> bdepth(#[trigger] n.children@[i]) + 1 == bdepth(n))
    &&& (forall|i: int| 0 <= i < n.children@.len() ==> occ_node(#[trigger] n.children@[i], mn, mx))
}

impl BTree {
    /// Every node below the root holds between the configured minimum and
    /// maximum number of entries, internal nodes have one more child than
    /// they have entries, and all leaves stand at one depth.
    pub closed spec fn occupancy_ok(self) -> bool {
        match self.root {
            None => true,
            Some(b) => occ_node(*b, self.min_keys as int, self.max_keys as int) && 1
                <= b.entries@.len() <= self.max_keys as int,
        }
    }
}

proof fn lemma_bwf_occ(n: BNode, lo: int, hi: int, m: int)
    requires
        bwf_sub(n, lo, hi, m),
        m >= 3,
        m % 2 == 1,
    ensures
        occ_node(n, m / 2, m),
    decreases n,
{
    let e = n.entries@;
    let c = n.children@;
    assert forall|i: int| 0 <= i < c.len() implies occ_node(#[trigger] c[i], m / 2, m) by {
        assert(bwf_sub(c[i], clo(e, lo, i), chi(e, hi, i), m));
        lemma_bwf_occ(c[i], clo(e, lo, i), chi(e, hi, i), m);
    }
    assert(lo_occ(m) == m / 2);
    assert(hi_occ(m) <= m);
    assert forall|i: int|
        0 <= i < c.len() implies m / 2 <= (#[trigger] c[i]).entries@.len() <= m by {
        assert(bwf_sub(c[i], clo(e, lo, i), chi(e, hi, i), m));
        assert(c[i].entries@.len() <= hi_occ(m));
        assert(c[i].entries@.len() >= lo_occ(m));
    }
}

/// For a tree of odd order, after every mutation every node below the
/// root holds between `order / 2` and `order` entries, internal nodes
/// have entries + 1 children, and all leaves stand at one depth. For an
/// even order the same holds with the lower bound relaxed by one.
pub proof fn lemma_odd_order_occupancy(t: BTree)
    requires
        t.well_formed(),
        t.spec_order() % 2 == 1,
    ensures
        t.occupancy_ok(),
{
    match t.root {
        None => {}
        Some(b) => {
            lemma_bwf_occ(*b, -1, key_space(), t.spec_order());
            assert(hi_occ(t.spec_order()) <= t.spec_order());
        }
    }
}

} // verus!
