//! A height-balanced binary search tree: an ordered map from `u64` keys to
//! `u64` values whose every mutation keeps each node's two subtree heights
//! within one of another, so that lookups, insertions and removals stay
//! logarithmic in the number of stored pairs.

use vstd::prelude::*;

use crate::pairs::{
    folded_map, has_key, keys_above, keys_below, lemma_has_key_three, lemma_keys_above_insert,
    lemma_keys_above_remove, lemma_keys_above_split, lemma_keys_above_three,
    lemma_keys_below_insert, lemma_keys_below_remove, lemma_keys_below_split,
    lemma_keys_below_three, lemma_map_of_concat,
    lemma_map_of_contains, lemma_map_of_index, lemma_remove_key_absent, lemma_remove_key_concat,
    lemma_remove_key_props, lemma_sorted_insert_concat_left, lemma_sorted_insert_concat_right, lemma_sorted_insert_props,
    lemma_ssorted_three, map_of, remove_key, sorted_insert, ssorted,
};

verus! {

struct Node {
    key: u64,
    val: u64,
    height: usize,
    left: Option<Box<Node>>,
    right: Option<Box<Node>>,
}

/// An AVL tree with owned nodes.
pub struct AVL {
    root: Option<Box<Node>>,
    len: usize,
}

impl View for AVL {
    type V = Map<u64, u64>;

    /// The finite map that the tree stores.
    open spec fn view(&self) -> Map<u64, u64> {
        map_of(self.to_seq())
    }
}

/// The larger of two subtree heights.
spec fn hmax(a: nat, b: nat) -> nat {
    if a < b {
        b
    } else {
        a
    }
}

/// The pairs of the subtree, in ascending key order.
spec fn oseq(n: Option<Box<Node>>) -> Seq<(u64, u64)>
    decreases n,
{
    match n {
        None => Seq::empty(),
        Some(b) => oseq(b.left) + seq![(b.key, b.val)] + oseq(b.right),
    }
}

/// The height of the subtree: zero when absent, one for a single node.
spec fn oheight(n: Option<Box<Node>>) -> nat
    decreases n,
{
    match n {
        None => 0,
        Some(b) => 1 + hmax(oheight(b.left), oheight(b.right)),
    }
}

/// The search-tree ordering: smaller keys left, larger keys right.
spec fn bst_ok(n: Option<Box<Node>>) -> bool
    decreases n,
{
    match n {
        None => true,
        Some(b) => {
            &&& bst_ok(b.left)
            &&& bst_ok(b.right)
            &&& keys_below(oseq(b.left), b.key)
            &&& keys_above(oseq(b.right), b.key)
        },
    }
}

/// Every stored height equals the real height of its subtree.
spec fn heights_ok(n: Option<Box<Node>>) -> bool
    decreases n,
{
    match n {
        None => true,
        Some(b) => {
            &&& heights_ok(b.left)
            &&& heights_ok(b.right)
            &&& b.height == 1 + hmax(oheight(b.left), oheight(b.right))
        },
    }
}

/// Every node's two subtree heights are within one of another.
spec fn balanced_ok(n: Option<Box<Node>>) -> bool
    decreases n,
{
    match n {
        None => true,
        Some(b) => {
            &&& balanced_ok(b.left)
            &&& balanced_ok(b.right)
            &&& -1 <= oheight(b.left) - oheight(b.right) <= 1
        },
    }
}

/// The stored height of a node, zero when absent.
spec fn sheight(n: Option<Box<Node>>) -> nat {
    match n {
        None => 0,
        Some(b) => b.height as nat,
    }
}

/// The balance oracle's view: every balance factor computed from the stored
/// heights lies in `{-1, 0, 1}`.
spec fn stored_balanced(n: Option<Box<Node>>) -> bool
    decreases n,
{
    match n {
        None => true,
        Some(b) => {
            &&& stored_balanced(b.left)
            &&& stored_balanced(b.right)
            &&& -1 <= sheight(b.left) - sheight(b.right) <= 1
        },
    }
}

/// The whole structural invariant of a subtree.
spec fn owf(n: Option<Box<Node>>) -> bool {
    bst_ok(n) && heights_ok(n) && balanced_ok(n)
}

proof fn lemma_bst_sorted(n: Option<Box<Node>>)
    requires
        bst_ok(n),
    ensures
        ssorted(oseq(n)),
    decreases n,
{
    match n {
        None => {}
        Some(b) => {
            lemma_bst_sorted(b.left);
            lemma_bst_sorted(b.right);
            lemma_ssorted_three(oseq(b.left), (b.key, b.val), oseq(b.right));
        }
    }
}

proof fn lemma_oheight_le_len(n: Option<Box<Node>>)
    ensures
        oheight(n) <= oseq(n).len(),
    decreases n,
{
    match n {
        None => {}
        Some(b) => {
            lemma_oheight_le_len(b.left);
            lemma_oheight_le_len(b.right);
        }
    }
}

/// The stored height of a well-formed subtree, which is its real height.
fn hval(n: &Option<Box<Node>>) -> (h: usize)
    requires
        heights_ok(*n),
    ensures
        h == oheight(*n),
{
    match n {
        None => 0,
        Some(b) => b.height,
    }
}

/// Builds a node over two ordered subtrees, computing its height; the
/// result is balanced only when the two heights are close enough.
fn mk_node(key: u64, val: u64, left: Option<Box<Node>>, right: Option<Box<Node>>) -> (r: Box<
    Node,
>)
    requires
        bst_ok(left),
        bst_ok(right),
        heights_ok(left),
        heights_ok(right),
        keys_below(oseq(left), key),
        keys_above(oseq(right), key),
        oseq(left).len() + oseq(right).len() < usize::MAX,
    ensures
        oseq(Some(r)) == oseq(left) + seq![(key, val)] + oseq(right),
        bst_ok(Some(r)),
        heights_ok(Some(r)),
        oheight(Some(r)) == 1 + hmax(oheight(left), oheight(right)),
        r.left == left && r.right == right && r.key == key && r.val == val,
        (balanced_ok(left) && balanced_ok(right) && -1 <= oheight(left) - oheight(right) <= 1)
            ==> balanced_ok(Some(r)),
{
    proof {
        lemma_oheight_le_len(left);
        lemma_oheight_le_len(right);
    }
    let hl = hval(&left);
    let hr = hval(&right);
    let h = if hl < hr {
        hr + 1
    } else {
        hl + 1
    };
    Box::new(Node { key, val, height: h, left, right })
}

/// Restores balance over a left subtree that is two levels taller than
/// its sibling, by one right rotation or a left-right double rotation; the
/// stored pairs and their order never change.
#[verifier::rlimit(60)]
fn fix_left(key: u64, val: u64, l: Box<Node>, right: Option<Box<Node>>) -> (r: Box<Node>)
    requires
        bst_ok(Some(l)),
        heights_ok(Some(l)),
        balanced_ok(Some(l)),
        bst_ok(right),
        heights_ok(right),
        balanced_ok(right),
        keys_below(oseq(Some(l)), key),
        keys_above(oseq(right), key),
        oseq(Some(l)).len() + oseq(right).len() < usize::MAX,
        oheight(Some(l)) == oheight(right) + 2,
    ensures
        bst_ok(Some(r)),
        heights_ok(Some(r)),
        balanced_ok(Some(r)),
        oseq(Some(r)) == oseq(Some(l)) + seq![(key, val)] + oseq(right),
        oheight(right) + 2 <= oheight(Some(r)) <= oheight(right) + 3,
{
    proof {
        reveal_with_fuel(oseq, 2);
        reveal_with_fuel(bst_ok, 2);
        reveal_with_fuel(heights_ok, 2);
        reveal_with_fuel(balanced_ok, 2);
        lemma_oheight_le_len(Some(l));
        lemma_oheight_le_len(right);
        lemma_keys_below_split(oseq(l.left), (l.key, l.val), oseq(l.right), key);
    }
    let Node { key: lk, val: lv, height: _, left: ll, right: lr } = *l;
    let hll = hval(&ll);
    let hlr = hval(&lr);
    if hll >= hlr {
        // One right rotation: the left child becomes the root.
        let nr = mk_node(key, val, lr, right);
        proof {
            lemma_keys_above_three(oseq(nr.left), (key, val), oseq(nr.right), lk);
            assert(keys_above(oseq(right), lk)) by {
                assert(forall|i: int|
                    0 <= i < oseq(right).len() ==> #[trigger] oseq(right)[i].0 > key);
            }
        }
        let res = mk_node(lk, lv, ll, Some(nr));
        proof {
            assert(oseq(Some(res)) =~= oseq(Some(l)) + seq![(key, val)] + oseq(right));
        }
        res
    } else {
        // The left child leans right: rotate it left, then rotate right.
        let c = lr.unwrap();
        proof {
            assert(bst_ok(c.left) && bst_ok(c.right));
            assert(heights_ok(c.left) && heights_ok(c.right));
            assert(balanced_ok(c.left) && balanced_ok(c.right));
            lemma_keys_above_split(oseq(c.left), (c.key, c.val), oseq(c.right), lk);
            lemma_keys_below_split(oseq(c.left), (c.key, c.val), oseq(c.right), key);
        }
        let Node { key: ck, val: cv, height: _, left: cl, right: cr } = *c;
        let na = mk_node(lk, lv, ll, cl);
        proof {
            assert(keys_below(oseq(Some(na)), ck)) by {
                assert(keys_below(oseq(ll), ck)) by {
                    assert(forall|i: int|
                        0 <= i < oseq(ll).len() ==> #[trigger] oseq(ll)[i].0 < lk);
                }
                lemma_keys_below_three(oseq(ll), (lk, lv), oseq(cl), ck);
            }
        }
        let nb = mk_node(key, val, cr, right);
        proof {
            assert(keys_above(oseq(Some(nb)), ck)) by {
                assert(keys_above(oseq(right), ck)) by {
                    assert(forall|i: int|
                        0 <= i < oseq(right).len() ==> #[trigger] oseq(right)[i].0 > key);
                }
                lemma_keys_above_three(oseq(cr), (key, val), oseq(right), ck);
            }
        }
        let res = mk_node(ck, cv, Some(na), Some(nb));
        proof {
            assert(oseq(Some(res)) =~= oseq(Some(l)) + seq![(key, val)] + oseq(right));
        }
        res
    }
}

/// Restores balance over a right subtree that is two levels taller than
/// its sibling: the mirror image of `fix_left`.
#[verifier::rlimit(60)]
fn fix_right(key: u64, val: u64, left: Option<Box<Node>>, rn: Box<Node>) -> (r: Box<Node>)
    requires
        bst_ok(left),
        heights_ok(left),
        balanced_ok(left),
        bst_ok(Some(rn)),
        heights_ok(Some(rn)),
        balanced_ok(Some(rn)),
        keys_below(oseq(left), key),
        keys_above(oseq(Some(rn)), key),
        oseq(left).len() + oseq(Some(rn)).len() < usize::MAX,
        oheight(Some(rn)) == oheight(left) + 2,
    ensures
        bst_ok(Some(r)),
        heights_ok(Some(r)),
        balanced_ok(Some(r)),
        oseq(Some(r)) == oseq(left) + seq![(key, val)] + oseq(Some(rn)),
        oheight(left) + 2 <= oheight(Some(r)) <= oheight(left) + 3,
{
    proof {
        reveal_with_fuel(oseq, 2);
        reveal_with_fuel(bst_ok, 2);
        reveal_with_fuel(heights_ok, 2);
        reveal_with_fuel(balanced_ok, 2);
        lemma_oheight_le_len(left);
        lemma_oheight_le_len(Some(rn));
        lemma_keys_above_split(oseq(rn.left), (rn.key, rn.val), oseq(rn.right), key);
    }
    let Node { key: rk, val: rv, height: _, left: rl, right: rr } = *rn;
    let hrl = hval(&rl);
    let hrr = hval(&rr);
    if hrr >= hrl {
        // One left rotation: the right child becomes the root.
        let nl = mk_node(key, val, left, rl);
        proof {
            assert(keys_below(oseq(Some(nl)), rk)) by {
                assert(keys_below(oseq(left), rk)) by {
                    assert(forall|i: int|
                        0 <= i < oseq(left).len() ==> #[trigger] oseq(left)[i].0 < key);
                }
                lemma_keys_below_three(oseq(left), (key, val), oseq(rl), rk);
            }
        }
        let res = mk_node(rk, rv, Some(nl), rr);
        proof {
            assert(oseq(Some(res)) =~= oseq(left) + seq![(key, val)] + (oseq(rl) + seq![
                (rk, rv),
            ] + oseq(rr)));
        }
        res
    } else {
        // The right child leans left: rotate it right, then rotate left.
        let c = rl.unwrap();
        proof {
            assert(bst_ok(c.left) && bst_ok(c.right));
            assert(heights_ok(c.left) && heights_ok(c.right));
            assert(balanced_ok(c.left) && balanced_ok(c.right));
            lemma_keys_below_split(oseq(c.left), (c.key, c.val), oseq(c.right), rk);
            lemma_keys_above_split(oseq(c.left), (c.key, c.val), oseq(c.right), key);
        }
        let Node { key: ck, val: cv, height: _, left: cl, right: cr } = *c;
        let na = mk_node(key, val, left, cl);
        proof {
            assert(keys_below(oseq(Some(na)), ck)) by {
                assert(keys_below(oseq(left), ck)) by {
                    assert(forall|i: int|
                        0 <= i < oseq(left).len() ==> #[trigger] oseq(left)[i].0 < key);
                }
                lemma_keys_below_three(oseq(left), (key, val), oseq(cl), ck);
            }
        }
        let nb = mk_node(rk, rv, cr, rr);
        proof {
            assert(keys_above(oseq(Some(nb)), ck)) by {
                assert(keys_above(oseq(rr), ck)) by {
                    assert(forall|i: int|
                        0 <= i < oseq(rr).len() ==> #[trigger] oseq(rr)[i].0 > rk);
                }
                lemma_keys_above_three(oseq(cr), (rk, rv), oseq(rr), ck);
            }
        }
        let res = mk_node(ck, cv, Some(na), Some(nb));
        proof {
            assert(oseq(Some(res)) =~= oseq(left) + seq![(key, val)] + (oseq(rl) + seq![
                (rk, rv),
            ] + oseq(rr)));
        }
        res
    }
}

/// Rebuilds a node whose subtree heights may differ by up to two, rotating
/// once or twice so that the result is balanced again; the stored pairs and
/// their order never change.
fn fix(key: u64, val: u64, left: Option<Box<Node>>, right: Option<Box<Node>>) -> (r: Box<Node>)
    requires
        owf(left),
        owf(right),
        keys_below(oseq(left), key),
        keys_above(oseq(right), key),
        oseq(left).len() + oseq(right).len() < usize::MAX,
        -2 <= oheight(left) - oheight(right) <= 2,
    ensures
        owf(Some(r)),
        oseq(Some(r)) == oseq(left) + seq![(key, val)] + oseq(right),
        hmax(oheight(left), oheight(right)) <= oheight(Some(r)) <= 1 + hmax(
            oheight(left),
            oheight(right),
        ),
        (-1 <= oheight(left) - oheight(right) <= 1) ==> oheight(Some(r)) == 1 + hmax(
            oheight(left),
            oheight(right),
        ),
{
    proof {
        lemma_oheight_le_len(left);
        lemma_oheight_le_len(right);
    }
    let hl = hval(&left);
    let hr = hval(&right);
    if hl > hr + 1 {
        // The left subtree is two levels taller.
        let l = left.unwrap();
        fix_left(key, val, l, right)
    } else if hr > hl + 1 {
        // The right subtree is two levels taller.
        let rn = right.unwrap();
        fix_right(key, val, left, rn)
    } else {
        mk_node(key, val, left, right)
    }
}

/// Inserts or overwrites a pair in a well-formed subtree, rebalancing on
/// the way back up; also reports whether the tree grew.
fn insert_node(n: Option<Box<Node>>, k: u64, v: u64) -> (r: (Option<Box<Node>>, bool))
    requires
        owf(n),
        oseq(n).len() < usize::MAX,
    ensures
        owf(r.0),
        oseq(r.0) == sorted_insert(oseq(n), k, v),
        oheight(n) <= oheight(r.0) <= oheight(n) + 1,
        r.1 == !has_key(oseq(n), k),
    decreases n,
{
    match n {
        None => {
            let nn = Box::new(Node { key: k, val: v, height: 1, left: None, right: None });
            proof {
                assert(oseq(Some(nn)) =~= sorted_insert(oseq(n), k, v));
            }
            (Some(nn), true)
        }
        Some(b) => {
            proof {
                lemma_bst_sorted(n);
            }
            let Node { key, val, height: _, left, right } = *b;
            let ghost p = (key, val);
            let ghost mid = seq![p] + oseq(right);
            proof {
                assert(oseq(n) == oseq(left) + seq![p] + oseq(right));
                assert(oseq(n) =~= oseq(left) + mid);
                lemma_has_key_three(oseq(left), p, oseq(right), k);
            }
            if k == key {
                let nn = mk_node(k, v, left, right);
                proof {
                    lemma_sorted_insert_concat_right(oseq(left), mid, k, v);
                    assert(mid[0].0 == k);
                    assert(sorted_insert(mid, k, v) == seq![(k, v)] + mid.drop_first());
                    assert(mid.drop_first() =~= oseq(right));
                    assert(oseq(Some(nn)) =~= oseq(left) + sorted_insert(mid, k, v));
                    assert(has_key(oseq(n), k));
                }
                (Some(nn), false)
            } else if k < key {
                let (nl, added) = insert_node(left, k, v);
                proof {
                    lemma_bst_sorted(left);
                    lemma_sorted_insert_props(oseq(left), k, v);
                    lemma_keys_below_insert(oseq(left), k, v, key);
                }
                let nn = fix(key, val, nl, right);
                proof {
                    assert(keys_above(mid, k)) by {
                        assert(forall|i: int|
                            0 <= i < oseq(right).len() ==> #[trigger] oseq(right)[i].0 > key);
                        assert(forall|i: int| 0 <= i < mid.len() ==> #[trigger] mid[i].0 > k);
                    }
                    lemma_sorted_insert_concat_left(oseq(left), mid, k, v);
                    assert(oseq(Some(nn)) =~= sorted_insert(oseq(left), k, v) + mid);
                }
                (Some(nn), added)
            } else {
                let (nr, added) = insert_node(right, k, v);
                proof {
                    lemma_bst_sorted(right);
                    lemma_sorted_insert_props(oseq(right), k, v);
                    lemma_keys_above_insert(oseq(right), k, v, key);
                }
                let nn = fix(key, val, left, nr);
                proof {
                    let front = oseq(left) + seq![p];
                    assert(oseq(n) =~= front + oseq(right));
                    assert(keys_below(front, k)) by {
                        assert(forall|i: int|
                            0 <= i < oseq(left).len() ==> #[trigger] oseq(left)[i].0 < key);
                        assert(forall|i: int| 0 <= i < front.len() ==> #[trigger] front[i].0 < k);
                    }
                    lemma_sorted_insert_concat_right(front, oseq(right), k, v);
                    assert(oseq(Some(nn)) =~= front + sorted_insert(oseq(right), k, v));
                }
                (Some(nn), added)
            }
        }
    }
}

/// Looks a key up in an ordered subtree.
fn get_node<'a>(n: &'a Option<Box<Node>>, k: u64) -> (r: Option<&'a u64>)
    requires
        bst_ok(*n),
    ensures
        r == (if map_of(oseq(*n)).dom().contains(k) {
            Some(&map_of(oseq(*n))[k])
        } else {
            None
        }),
    decreases n,
{
    match n {
        None => {
            proof {
                lemma_map_of_contains(oseq(*n), k);
            }
            None
        }
        Some(b) => {
            let ghost l = oseq(b.left);
            let ghost rr = oseq(b.right);
            let ghost p = (b.key, b.val);
            let ghost mid = seq![p] + rr;
            proof {
                lemma_bst_sorted(*n);
                assert(oseq(*n) == l + seq![p] + rr);
                lemma_has_key_three(l, p, rr, k);
                lemma_map_of_contains(oseq(*n), k);
            }
            if k == b.key {
                proof {
                    assert(oseq(*n)[l.len() as int] == p);
                    lemma_map_of_index(oseq(*n), l.len() as int);
                }
                Some(&b.val)
            } else if k < b.key {
                proof {
                    lemma_map_of_contains(l, k);
                    if map_of(l).dom().contains(k) {
                        assert(oseq(*n) =~= l + mid);
                        lemma_map_of_concat(l, mid);
                        assert(map_of(oseq(*n))[k] == map_of(l)[k]);
                        lemma_bst_sorted(b.left);
                        let i = choose|i: int| 0 <= i < l.len() && l[i].0 == k;
                        lemma_map_of_index(l, i);
                        assert(oseq(*n)[i] == l[i]);
                        lemma_map_of_index(oseq(*n), i);
                    }
                }
                get_node(&b.left, k)
            } else {
                let ghost front = l + seq![p];
                proof {
                    lemma_map_of_contains(rr, k);
                    if map_of(rr).dom().contains(k) {
                        assert(oseq(*n) =~= front + rr);
                        lemma_map_of_concat(front, rr);
                        assert(!has_key(front, k)) by {
                            if has_key(front, k) {
                                let i = choose|i: int| 0 <= i < front.len() && front[i].0 == k;
                                if i < l.len() {
                                    assert(l[i].0 == k);
                                } else {
                                    assert(front[i] == p);
                                }
                            }
                        }
                        lemma_map_of_contains(front, k);
                        assert(map_of(oseq(*n))[k] == map_of(rr)[k]);
                        lemma_bst_sorted(b.right);
                        let i = choose|i: int| 0 <= i < rr.len() && rr[i].0 == k;
                        lemma_map_of_index(rr, i);
                        assert(oseq(*n)[front.len() + i] == rr[i]);
                        lemma_map_of_index(oseq(*n), front.len() + i);
                    }
                }
                get_node(&b.right, k)
            }
        }
    }
}

/// Detaches the pair with the greatest key from a well-formed subtree,
/// rebalancing on the way back up.
fn pop_max_node(b: Box<Node>) -> (r: (Option<Box<Node>>, u64, u64))
    requires
        owf(Some(b)),
        oseq(Some(b)).len() <= usize::MAX,
    ensures
        owf(r.0),
        oseq(r.0) == oseq(Some(b)).drop_last(),
        (r.1, r.2) == oseq(Some(b)).last(),
        oheight(Some(b)) - 1 <= oheight(r.0) <= oheight(Some(b)),
    decreases b,
{
    let ghost whole = oseq(Some(b));
    let Node { key, val, height: _, left, right } = *b;
    let ghost l = oseq(left);
    let ghost rr = oseq(right);
    let ghost p = (key, val);
    match right {
        None => {
            proof {
                assert(whole =~= l + seq![p]);
                assert(whole.drop_last() =~= l);
                assert(whole.last() == p);
            }
            (left, key, val)
        }
        Some(rb) => {
            proof {
                assert(oseq(Some(rb)).len() >= 1);
            }
            let (nr, mk, mv) = pop_max_node(rb);
            proof {
                assert(keys_above(oseq(nr), key)) by {
                    assert(forall|i: int|
                        0 <= i < oseq(nr).len() ==> oseq(nr)[i] == #[trigger] rr[i]);
                }
            }
            let nn = fix(key, val, left, nr);
            proof {
                assert(whole.last() == rr.last()) by {
                    assert(whole[l.len() + 1 + (rr.len() - 1)] == rr[rr.len() - 1]);
                }
                assert(oseq(Some(nn)) =~= whole.drop_last());
            }
            (Some(nn), mk, mv)
        }
    }
}

/// Detaches the pair with the least key from a well-formed subtree,
/// rebalancing on the way back up.
fn pop_min_node(b: Box<Node>) -> (r: (Option<Box<Node>>, u64, u64))
    requires
        owf(Some(b)),
        oseq(Some(b)).len() <= usize::MAX,
    ensures
        owf(r.0),
        oseq(r.0) == oseq(Some(b)).drop_first(),
        (r.1, r.2) == oseq(Some(b))[0],
        oheight(Some(b)) - 1 <= oheight(r.0) <= oheight(Some(b)),
    decreases b,
{
    let ghost whole = oseq(Some(b));
    let Node { key, val, height: _, left, right } = *b;
    let ghost l = oseq(left);
    let ghost rr = oseq(right);
    let ghost p = (key, val);
    match left {
        None => {
            proof {
                assert(whole =~= seq![p] + rr);
                assert(whole.drop_first() =~= rr);
                assert(whole[0] == p);
            }
            (right, key, val)
        }
        Some(lb) => {
            proof {
                assert(oseq(Some(lb)).len() >= 1);
            }
            let (nl, mk, mv) = pop_min_node(lb);
            proof {
                assert(keys_below(oseq(nl), key)) by {
                    assert(forall|i: int|
                        0 <= i < oseq(nl).len() ==> oseq(nl)[i] == #[trigger] l[i + 1]);
                }
            }
            let nn = fix(key, val, nl, right);
            proof {
                assert(whole[0] == l[0]);
                assert(oseq(Some(nn)) =~= whole.drop_first());
            }
            (Some(nn), mk, mv)
        }
    }
}

/// Removes the pair carrying `k`, if any, from a well-formed subtree,
/// splicing in the in-order predecessor when the node has two children and
/// rebalancing on the way back up.
#[verifier::rlimit(100)]
fn remove_node(n: Option<Box<Node>>, k: u64) -> (r: (Option<Box<Node>>, Option<u64>))
    requires
        owf(n),
        oseq(n).len() <= usize::MAX,
    ensures
        owf(r.0),
        oseq(r.0) == remove_key(oseq(n), k),
        r.1 == (if has_key(oseq(n), k) {
            Some(map_of(oseq(n))[k])
        } else {
            None
        }),
        oheight(n) - 1 <= oheight(r.0) <= oheight(n),
    decreases n,
{
    match n {
        None => {
            proof {
                assert(oseq(n) == Seq::<(u64, u64)>::empty());
                assert(remove_key(Seq::<(u64, u64)>::empty(), k) == Seq::<(u64, u64)>::empty());
            }
            (None, None)
        }
        Some(b) => {
            proof {
                lemma_bst_sorted(n);
            }
            let ghost whole = oseq(n);
            let Node { key, val, height: _, left, right } = *b;
            let ghost l = oseq(left);
            let ghost rr = oseq(right);
            let ghost p = (key, val);
            let ghost mid = seq![p] + rr;
            proof {
                assert(whole == l + seq![p] + rr);
                assert(whole =~= l + mid);
                lemma_has_key_three(l, p, rr, k);
                lemma_remove_key_concat(l, mid, k);
                lemma_map_of_concat(l, mid);
                lemma_bst_sorted(left);
                lemma_bst_sorted(right);
                assert(!has_key(rr, k) || k > key) by {
                    if has_key(rr, k) {
                        let i = choose|i: int| 0 <= i < rr.len() && rr[i].0 == k;
                    }
                }
                assert(!has_key(l, k) || k < key) by {
                    if has_key(l, k) {
                        let i = choose|i: int| 0 <= i < l.len() && l[i].0 == k;
                    }
                }
            }
            if k < key {
                let (nl, out) = remove_node(left, k);
                proof {
                    lemma_keys_below_remove(l, k, key);
                    lemma_remove_key_props(l, k);
                    lemma_map_of_contains(l, k);
                    if has_key(l, k) {
                        assert(map_of(whole)[k] == map_of(l)[k]);
                    } else {
                        lemma_remove_key_absent(l, k);
                        lemma_remove_key_absent(rr, k);
                        assert(mid[0] == p);
                        assert(mid.drop_first() =~= rr);
                        assert(remove_key(mid, k) == seq![p] + remove_key(rr, k));
                        assert(l + remove_key(mid, k) =~= whole);
                    }
                }
                let nn = fix(key, val, nl, right);
                proof {
                    assert(oseq(Some(nn)) =~= remove_key(l, k) + mid);
                }
                (Some(nn), out)
            } else if k > key {
                let (nr, out) = remove_node(right, k);
                proof {
                    lemma_keys_above_remove(rr, k, key);
                    lemma_remove_key_props(rr, k);
                    lemma_map_of_contains(rr, k);
                    assert(!has_key(l, k));
                    assert(mid[0] == p);
                    assert(mid.drop_first() =~= rr);
                    assert(remove_key(mid, k) == seq![p] + remove_key(rr, k));
                    if has_key(rr, k) {
                        assert(!has_key(mid, k) == false) by {
                            let i = choose|i: int| 0 <= i < rr.len() && rr[i].0 == k;
                            assert(mid[i + 1].0 == k);
                        }
                        lemma_map_of_concat(seq![p], rr);
                        assert(mid =~= seq![p] + rr);
                        lemma_map_of_contains(seq![p], k);
                        assert(!has_key(seq![p], k)) by {
                            if has_key(seq![p], k) {
                                let i = choose|i: int| 0 <= i < 1 && seq![p][i].0 == k;
                            }
                        }
                        assert(map_of(mid)[k] == map_of(rr)[k]);
                        lemma_map_of_contains(mid, k);
                        lemma_map_of_contains(l, k);
                        assert(map_of(whole)[k] == map_of(mid)[k]);
                    } else {
                        lemma_remove_key_absent(rr, k);
                        assert(l + remove_key(mid, k) =~= whole);
                    }
                }
                let nn = fix(key, val, left, nr);
                proof {
                    assert(oseq(Some(nn)) =~= l + (seq![p] + remove_key(rr, k)));
                }
                (Some(nn), out)
            } else {
                // The node itself carries the key.
                proof {
                    assert(whole[l.len() as int] == p);
                    lemma_map_of_index(whole, l.len() as int);
                    assert(!has_key(l, k));
                    assert(remove_key(mid, k) == rr);
                    assert(remove_key(whole, k) == l + rr);
                    assert(has_key(whole, k));
                }
                match left {
                    None => {
                        proof {
                            assert(l + rr =~= rr);
                        }
                        (right, Some(val))
                    }
                    Some(lb) => {
                        proof {
                            assert(oseq(Some(lb)).len() >= 1);
                        }
                        let (nl, mk, mv) = pop_max_node(lb);
                        proof {
                            assert((mk, mv) == l.last());
                            assert(keys_below(oseq(nl), mk)) by {
                                assert(forall|i: int|
                                    0 <= i < oseq(nl).len() ==> oseq(nl)[i] == #[trigger] l[i]);
                            }
                            assert(keys_above(rr, mk)) by {
                                assert(l.last().0 < key);
                                assert(forall|i: int|
                                    0 <= i < rr.len() ==> #[trigger] rr[i].0 > key);
                            }
                        }
                        let nn = fix(mk, mv, nl, right);
                        proof {
                            assert(l =~= l.drop_last() + seq![l.last()]);
                            assert(oseq(Some(nn)) =~= l + rr);
                        }
                        (Some(nn), Some(val))
                    }
                }
            }
        }
    }
}

impl AVL {
    /// The stored pairs in ascending key order: the model that iteration
    /// and the balance of the structure are specified against.
    pub closed spec fn to_seq(self) -> Seq<(u64, u64)> {
        oseq(self.root)
    }

    /// The structural invariant: search-tree ordering, correct stored
    /// heights, the height-balance bound, and an accurate length field.
    pub closed spec fn well_formed(self) -> bool {
        owf(self.root) && self.len == oseq(self.root).len()
    }

    /// Creates an empty tree.
    pub fn new() -> (t: AVL)
        ensures
            t.well_formed(),
            t.to_seq() == Seq::<(u64, u64)>::empty(),
            t@ == Map::<u64, u64>::empty(),
    {
        AVL { root: None, len: 0 }
    }

    /// Inserts the pair, overwriting the value if the key is present.
    pub fn insert(&mut self, k: u64, v: u64)
        requires
            old(self).well_formed(),
            old(self).to_seq().len() < usize::MAX,
        ensures
            final(self).well_formed(),
            final(self).to_seq() == sorted_insert(old(self).to_seq(), k, v),
            final(self).to_seq().len() <= old(self).to_seq().len() + 1,
            final(self)@ == old(self)@.insert(k, v),
    {
        proof {
            lemma_bst_sorted(self.root);
            lemma_sorted_insert_props(oseq(self.root), k, v);
        }
        let root = self.root.take();
        let (nr, added) = insert_node(root, k, v);
        self.root = nr;
        if added {
            self.len = self.len + 1;
        }
    }

    /// Inserts the pair; a name the tree also answers to.
    pub fn add(&mut self, k: u64, v: u64)
        requires
            old(self).well_formed(),
            old(self).to_seq().len() < usize::MAX,
        ensures
            final(self).well_formed(),
            final(self).to_seq() == sorted_insert(old(self).to_seq(), k, v),
            final(self).to_seq().len() <= old(self).to_seq().len() + 1,
            final(self)@ == old(self)@.insert(k, v),
    {
        self.insert(k, v)
    }

    /// Inserts the pair, updating the value of an existing key.
    pub fn set(&mut self, k: u64, v: u64)
        requires
            old(self).well_formed(),
            old(self).to_seq().len() < usize::MAX,
        ensures
            final(self).well_formed(),
            final(self).to_seq() == sorted_insert(old(self).to_seq(), k, v),
            final(self).to_seq().len() <= old(self).to_seq().len() + 1,
            final(self)@ == old(self)@.insert(k, v),
    {
        self.insert(k, v)
    }

    /// The number of stored pairs.
    pub fn len(&self) -> (r: usize)
        requires
            self.well_formed(),
        ensures
            r == self.to_seq().len(),
    {
        self.len
    }

    /// Whether no pair is stored.
    pub fn is_empty(&self) -> (r: bool)
        requires
            self.well_formed(),
        ensures
            r == (self.to_seq().len() == 0),
            r == (self@ == Map::<u64, u64>::empty()),
    {
        proof {
            if self.to_seq().len() == 0 {
                assert(self@ =~= Map::<u64, u64>::empty());
            } else {
                lemma_bst_sorted(self.root);
                lemma_map_of_index(self.to_seq(), 0);
            }
        }
        self.len == 0
    }

    /// Empties the tree.
    pub fn clear(&mut self)
        ensures
            final(self).well_formed(),
            final(self).to_seq() == Seq::<(u64, u64)>::empty(),
            final(self)@ == Map::<u64, u64>::empty(),
    {
        *self = AVL { root: None, len: 0 };
    }

    /// Looks the value for a key up.
    pub fn get(&self, k: &u64) -> (r: Option<&u64>)
        requires
            self.well_formed(),
        ensures
            r == (if self@.dom().contains(*k) {
                Some(&self@[*k])
            } else {
                None
            }),
    {
        get_node(&self.root, *k)
    }

    /// Whether a pair with the key is stored.
    pub fn contains(&self, k: &u64) -> (r: bool)
        requires
            self.well_formed(),
        ensures
            r == self@.dom().contains(*k),
    {
        self.get(k).is_some()
    }

    /// Removes the pair with the key and returns its value; an absent key
    /// is an empty answer, not an error.
    pub fn remove(&mut self, k: &u64) -> (r: Option<u64>)
        requires
            old(self).well_formed(),
        ensures
            final(self).well_formed(),
            final(self).to_seq() == remove_key(old(self).to_seq(), *k),
            final(self)@ == old(self)@.remove(*k),
            r == (if old(self)@.dom().contains(*k) {
                Some(old(self)@[*k])
            } else {
                None
            }),
    {
        proof {
            lemma_bst_sorted(self.root);
            lemma_remove_key_props(oseq(self.root), *k);
            lemma_map_of_contains(oseq(self.root), *k);
        }
        let root = self.root.take();
        let (nr, out) = remove_node(root, *k);
        self.root = nr;
        if out.is_some() {
            self.len = self.len - 1;
        }
        out
    }

    /// The pair stored at the root of the tree, an empty answer on an
    /// empty tree; which key sits at the root is the rebalancing's choice.
    pub fn peek_root(&self) -> (r: Option<(u64, u64)>)
        requires
            self.well_formed(),
        ensures
            r.is_some() <==> self.to_seq().len() != 0,
            r matches Some(p) ==> self@.dom().contains(p.0) && self@[p.0] == p.1,
    {
        match &self.root {
            None => None,
            Some(b) => {
                proof {
                    lemma_bst_sorted(self.root);
                    assert(oseq(self.root)[oseq(b.left).len() as int] == (b.key, b.val));
                    lemma_map_of_index(oseq(self.root), oseq(b.left).len() as int);
                }
                Some((b.key, b.val))
            }
        }
    }

    /// Removes and returns the least pair, an empty answer when none;
    /// the draining cursor's forward step.
    fn pop_min(&mut self) -> (r: Option<(u64, u64)>)
        requires
            old(self).well_formed(),
        ensures
            final(self).well_formed(),
            old(self).to_seq().len() == 0 ==> r is None && final(self).to_seq() == old(self).to_seq(),
            old(self).to_seq().len() > 0 ==> r == Some(old(self).to_seq()[0]) && final(self).to_seq() == old(self).to_seq().drop_first(),
    {
        let root = self.root.take();
        match root {
            None => None,
            Some(b) => {
                let (nr, k, v) = pop_min_node(b);
                self.root = nr;
                self.len = self.len - 1;
                Some((k, v))
            }
        }
    }

    /// Removes and returns the greatest pair, an empty answer when none;
    /// the draining cursor's backward step.
    fn pop_max(&mut self) -> (r: Option<(u64, u64)>)
        requires
            old(self).well_formed(),
        ensures
            final(self).well_formed(),
            old(self).to_seq().len() == 0 ==> r is None && final(self).to_seq() == old(self).to_seq(),
            old(self).to_seq().len() > 0 ==> r == Some(old(self).to_seq().last()) && final(self).to_seq() == old(self).to_seq().drop_last(),
    {
        let root = self.root.take();
        match root {
            None => None,
            Some(b) => {
                let (nr, k, v) = pop_max_node(b);
                self.root = nr;
                self.len = self.len - 1;
                Some((k, v))
            }
        }
    }
}

/// The stored height of a subtree as the structure records it.
fn stored_height(n: &Option<Box<Node>>) -> (h: usize)
    ensures
        h == sheight(*n),
{
    match n {
        None => 0,
        Some(b) => b.height,
    }
}

/// Checks every balance factor that the stored heights give.
fn balanced_node(n: &Option<Box<Node>>) -> (r: bool)
    ensures
        r == stored_balanced(*n),
    decreases n,
{
    match n {
        None => true,
        Some(b) => {
            let hl = stored_height(&b.left);
            let hr = stored_height(&b.right);
            let near = if hl >= hr {
                hl - hr <= 1
            } else {
                hr - hl <= 1
            };
            near && balanced_node(&b.left) && balanced_node(&b.right)
        }
    }
}

proof fn lemma_heights_stored_balanced(n: Option<Box<Node>>)
    requires
        heights_ok(n),
        balanced_ok(n),
    ensures
        stored_balanced(n),
    decreases n,
{
    match n {
        None => {}
        Some(b) => {
            lemma_heights_stored_balanced(b.left);
            lemma_heights_stored_balanced(b.right);
        }
    }
}

impl AVL {
    /// Every balance factor computed from the stored heights is in
    /// `{-1, 0, 1}`.
    pub closed spec fn balance_factors_ok(self) -> bool {
        stored_balanced(self.root)
    }

    /// The structural oracle: scans the whole tree and reports whether
    /// every node's balance factor lies in `{-1, 0, 1}`.
    pub fn is_balanced_tree(&self) -> (r: bool)
        ensures
            r == self.balance_factors_ok(),
    {
        balanced_node(&self.root)
    }
}

/// After every mutation the tree reports itself balanced: a well-formed
/// tree passes the `is_balanced_tree` oracle.
pub proof fn lemma_well_formed_balanced(t: AVL)
    requires
        t.well_formed(),
    ensures
        t.balance_factors_ok(),
{
    lemma_heights_stored_balanced(t.root);
}

/// In-order iteration of a well-formed tree yields strictly increasing
/// keys, and the keys it yields are exactly the keys of the stored map.
pub proof fn lemma_inorder_sorted(t: AVL)
    requires
        t.well_formed(),
    ensures
        ssorted(t.to_seq()),
        forall|x: u64| #[trigger] has_key(t.to_seq(), x) <==> t@.dom().contains(x),
{
    lemma_bst_sorted(t.root);
    assert forall|x: u64| #[trigger] has_key(t.to_seq(), x) <==> t@.dom().contains(x) by {
        lemma_map_of_contains(t.to_seq(), x);
    }
}

/// One step of traversal work: a subtree still to walk, or a pair whose
/// subtrees on the ascending side are already scheduled.
enum Task<'a> {
    Visit(&'a Node),
    Emit(u64, u64),
}

/// The pairs a single piece of work will eventually yield.
spec fn task_seq(t: Task) -> Seq<(u64, u64)> {
    match t {
        Task::Visit(n) => oseq(n.left) + seq![(n.key, n.val)] + oseq(n.right),
        Task::Emit(k, v) => seq![(k, v)],
    }
}

/// The pairs a whole work stack will eventually yield, top of the stack
/// first.
spec fn stack_seq(s: Seq<Task>) -> Seq<(u64, u64)>
    decreases s.len(),
{
    if s.len() == 0 {
        Seq::empty()
    } else {
        task_seq(s.last()) + stack_seq(s.drop_last())
    }
}

/// How much work a single piece still costs; expanding a subtree into
/// its children and its own pair strictly cheapens the stack.
spec fn task_weight(t: Task) -> nat {
    match t {
        Task::Visit(n) => 3 * task_seq(t).len(),
        Task::Emit(k, v) => 1,
    }
}

/// How much work a whole stack still costs.
spec fn stack_weight(s: Seq<Task>) -> nat
    decreases s.len(),
{
    if s.len() == 0 {
        0
    } else {
        task_weight(s.last()) + stack_weight(s.drop_last())
    }
}

/// Collects the pairs of a subtree in ascending key order, driving an
/// explicit work stack instead of recursing: a visited node schedules its
/// greater subtree, then its own pair, then its smaller subtree, so the
/// smaller side is handled first.
fn fill_pairs(root: &Option<Box<Node>>, out: &mut Vec<(u64, u64)>)
    ensures
        final(out)@ == old(out)@ + oseq(*root),
{
    let mut stack: Vec<Task> = Vec::new();
    match root {
        None => {
            proof {
                assert(out@ + stack_seq(stack@) =~= old(out)@ + oseq(*root));
            }
        }
        Some(b) => {
            stack.push(Task::Visit(b));
            proof {
                assert(stack@.drop_last() =~= Seq::<Task>::empty());
                assert(oseq(*root) == oseq(b.left) + seq![(b.key, b.val)] + oseq(b.right));
                assert(task_seq(stack@.last()) == oseq(b.left) + seq![(b.key, b.val)] + oseq(
                    b.right,
                ));
                assert(stack_seq(stack@) =~= task_seq(stack@.last()) + stack_seq(
                    stack@.drop_last(),
                ));
                assert(out@ + stack_seq(stack@) =~= old(out)@ + oseq(*root));
            }
        }
    }
    while stack.len() != 0
        invariant
            out@ + stack_seq(stack@) == old(out)@ + oseq(*root),
        decreases stack_weight(stack@),
    {
        let ghost stack0 = stack@;
        let t = stack.pop().unwrap();
        proof {
            assert(stack@ == stack0.drop_last());
            assert(t == stack0.last());
            assert(stack_seq(stack0) == task_seq(t) + stack_seq(stack@));
        }
        match t {
            Task::Emit(k, v) => {
                out.push((k, v));
                proof {
                    assert(out@ + stack_seq(stack@) =~= old(out)@ + oseq(*root));
                }
            }
            Task::Visit(n) => {
                let ghost base = stack@;
                match &n.right {
                    None => {}
                    Some(rb) => {
                        stack.push(Task::Visit(rb));
                    }
                }
                proof {
                    if n.right is Some {
                        assert(stack@.last() == Task::Visit(&n.right->0));
                        assert(stack@.drop_last() == base);
                        assert(oseq(n.right) == oseq(n.right->0.left) + seq![
                            (n.right->0.key, n.right->0.val),
                        ] + oseq(n.right->0.right));
                        assert(task_seq(stack@.last()) == oseq(n.right));
                    }
                    assert(stack_seq(stack@) =~= oseq(n.right) + stack_seq(base));
                    assert(stack_weight(stack@) == 3 * oseq(n.right).len() + stack_weight(base));
                }
                let ghost base1 = stack@;
                stack.push(Task::Emit(n.key, n.val));
                proof {
                    assert(stack@.last() == Task::Emit(n.key, n.val));
                    assert(stack@.drop_last() == base1);
                    assert(stack_seq(stack@) =~= seq![(n.key, n.val)] + stack_seq(base1));
                    assert(stack_weight(stack@) == 1 + stack_weight(base1));
                }
                let ghost base2 = stack@;
                match &n.left {
                    None => {}
                    Some(lb) => {
                        stack.push(Task::Visit(lb));
                    }
                }
                proof {
                    if n.left is Some {
                        assert(stack@.last() == Task::Visit(&n.left->0));
                        assert(stack@.drop_last() == base2);
                        assert(oseq(n.left) == oseq(n.left->0.left) + seq![
                            (n.left->0.key, n.left->0.val),
                        ] + oseq(n.left->0.right));
                        assert(task_seq(stack@.last()) == oseq(n.left));
                    }
                    assert(stack_seq(stack@) =~= oseq(n.left) + (seq![(n.key, n.val)] + (oseq(
                        n.right,
                    ) + stack_seq(base))));
                    assert(task_seq(t) =~= oseq(n.left) + seq![(n.key, n.val)] + oseq(n.right));
                    assert(out@ + stack_seq(stack@) =~= old(out)@ + oseq(*root));
                    assert(stack_weight(stack@) == 3 * oseq(n.left).len() + (1 + (3 * oseq(
                        n.right,
                    ).len() + stack_weight(base))));
                    assert(stack_weight(stack@) < stack_weight(stack0));
                }
            }
        }
    }
    proof {
        assert(out@ =~= old(out)@ + oseq(*root));
    }
}

/// A two-ended cursor over a snapshot of the tree's pairs in ascending
/// key order: the front and the back advance independently and meet
/// exactly once, emitting every pair exactly once.
pub struct Iter {
    items: Vec<(u64, u64)>,
    front: usize,
    back: usize,
}

impl Iter {
    /// Every pair the cursor ranges over, in ascending key order.
    pub closed spec fn all_pairs(self) -> Seq<(u64, u64)> {
        self.items@
    }

    /// How many pairs the front has emitted.
    pub closed spec fn front_at(self) -> int {
        self.front as int
    }

    /// Where the back stands: everything from here on has been emitted.
    pub closed spec fn back_at(self) -> int {
        self.back as int
    }

    /// The cursor's invariant: the two ends never cross.
    pub closed spec fn well_formed(self) -> bool {
        self.front <= self.back <= self.items@.len()
    }

    /// The next pair in ascending order, an empty answer once the two
    /// ends have met.
    pub fn next(&mut self) -> (r: Option<(u64, u64)>)
        requires
            old(self).well_formed(),
        ensures
            final(self).well_formed(),
            final(self).all_pairs() == old(self).all_pairs(),
            final(self).back_at() == old(self).back_at(),
            if old(self).front_at() < old(self).back_at() {
                r == Some(old(self).all_pairs()[old(self).front_at()]) && final(self).front_at()
                    == old(self).front_at() + 1
            } else {
                r is None && final(self).front_at() == old(self).front_at()
            },
    {
        if self.front < self.back {
            let p = self.items[self.front];
            self.front = self.front + 1;
            Some(p)
        } else {
            None
        }
    }

    /// The next pair in descending order, an empty answer once the two
    /// ends have met.
    pub fn next_back(&mut self) -> (r: Option<(u64, u64)>)
        requires
            old(self).well_formed(),
        ensures
            final(self).well_formed(),
            final(self).all_pairs() == old(self).all_pairs(),
            final(self).front_at() == old(self).front_at(),
            if old(self).front_at() < old(self).back_at() {
                r == Some(old(self).all_pairs()[old(self).back_at() - 1]) && final(self).back_at()
                    == old(self).back_at() - 1
            } else {
                r is None && final(self).back_at() == old(self).back_at()
            },
    {
        if self.front < self.back {
            self.back = self.back - 1;
            Some(self.items[self.back])
        } else {
            None
        }
    }
}

/// When the two ends of a cursor have met, the pairs the front emitted
/// followed by the pairs the back holds are exactly all pairs: nothing is
/// emitted twice and nothing is skipped, whatever order drove the ends.
pub proof fn lemma_iter_convergence(it: Iter)
    requires
        it.well_formed(),
        it.front_at() == it.back_at(),
    ensures
        it.all_pairs().take(it.front_at()) + it.all_pairs().skip(it.back_at()) == it.all_pairs(),
{
    assert(it.all_pairs().take(it.front_at()) + it.all_pairs().skip(it.back_at())
        =~= it.all_pairs());
}

/// A draining cursor that owns the tree and hands its pairs out from
/// either end, least keys forward and greatest keys backward.
pub struct IntoIter {
    tree: AVL,
}

impl IntoIter {
    /// The pairs not yet handed out, in ascending key order.
    pub closed spec fn remaining(self) -> Seq<(u64, u64)> {
        self.tree.to_seq()
    }

    /// The owned tree stays well-formed while it drains.
    pub closed spec fn well_formed(self) -> bool {
        self.tree.well_formed()
    }

    /// Extracts the least remaining pair.
    pub fn next(&mut self) -> (r: Option<(u64, u64)>)
        requires
            old(self).well_formed(),
        ensures
            final(self).well_formed(),
            old(self).remaining().len() == 0 ==> r is None && final(self).remaining() == old(self).remaining(),
            old(self).remaining().len() > 0 ==> r == Some(old(self).remaining()[0]) && final(self).remaining() == old(self).remaining().drop_first(),
    {
        self.tree.pop_min()
    }

    /// Extracts the greatest remaining pair.
    pub fn next_back(&mut self) -> (r: Option<(u64, u64)>)
        requires
            old(self).well_formed(),
        ensures
            final(self).well_formed(),
            old(self).remaining().len() == 0 ==> r is None && final(self).remaining() == old(self).remaining(),
            old(self).remaining().len() > 0 ==> r == Some(old(self).remaining().last()) && final(self).remaining() == old(self).remaining().drop_last(),
    {
        self.tree.pop_max()
    }
}

impl AVL {
    /// A two-ended cursor over the stored pairs in ascending key order.
    pub fn iter(&self) -> (it: Iter)
        requires
            self.well_formed(),
        ensures
            it.well_formed(),
            it.all_pairs() == self.to_seq(),
            it.front_at() == 0,
            it.back_at() == self.to_seq().len(),
    {
        let mut items: Vec<(u64, u64)> = Vec::new();
        fill_pairs(&self.root, &mut items);
        proof {
            assert(items@ =~= self.to_seq());
        }
        let n = items.len();
        Iter { items, front: 0, back: n }
    }

    /// A draining cursor that consumes the tree.
    pub fn into_iter(self) -> (it: IntoIter)
        requires
            self.well_formed(),
        ensures
            it.well_formed(),
            it.remaining() == self.to_seq(),
    {
        IntoIter { tree: self }
    }

    /// Builds a tree by inserting the pairs in order, later pairs
    /// overwriting earlier ones on an equal key.
    pub fn from_iter(pairs: Vec<(u64, u64)>) -> (t: AVL)
        ensures
            t.well_formed(),
            t@ == folded_map(pairs@),
    {
        let mut t = AVL::new();
        let n = pairs.len();
        let mut i: usize = 0;
        while i < n
            invariant
                i <= n,
                n == pairs@.len(),
                t.well_formed(),
                t@ == folded_map(pairs@.take(i as int)),
                t.to_seq().len() <= i,
            decreases n - i,
        {
            let (k, v) = pairs[i];
            proof {
                lemma_bst_sorted(t.root);
                lemma_sorted_insert_props(t.to_seq(), k, v);
            }
            t.insert(k, v);
            i = i + 1;
            proof {
                assert(pairs@.take(i as int).drop_last() =~= pairs@.take(i - 1));
                assert(pairs@.take(i as int).last() == pairs@[i - 1]);
            }
        }
        proof {
            assert(pairs@.take(n as int) =~= pairs@);
        }
        t
    }
}

} // verus!
