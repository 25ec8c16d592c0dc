//! The shared model of an ordered map: a strictly key-sorted sequence of
//! `(key, value)` pairs, together with the operations that the two tree
//! containers promise to implement and the lemmas that relate those
//! operations to `Map`.

use vstd::prelude::*;

verus! {

/// The keys of `s` are strictly increasing.
pub open spec fn ssorted(s: Seq<(u64, u64)>) -> bool {
    forall|i: int, j: int| 0 <= i < j < s.len() ==> s[i].0 < s[j].0
}

/// Some pair of `s` carries the key `k`.
pub open spec fn has_key(s: Seq<(u64, u64)>, k: u64) -> bool {
    exists|i: int| 0 <= i < s.len() && s[i].0 == k
}

/// Every key of `s` is strictly below `x`.
pub open spec fn keys_below(s: Seq<(u64, u64)>, x: u64) -> bool {
    forall|i: int| 0 <= i < s.len() ==> s[i].0 < x
}

/// Every key of `s` is strictly above `x`.
pub open spec fn keys_above(s: Seq<(u64, u64)>, x: u64) -> bool {
    forall|i: int| 0 <= i < s.len() ==> s[i].0 > x
}

/// The finite map that an association sequence denotes; on a duplicated key
/// the earliest pair wins, though the containers only ever build sequences
/// with distinct keys.
pub open spec fn map_of(s: Seq<(u64, u64)>) -> Map<u64, u64>
    decreases s.len(),
{
    if s.len() == 0 {
        Map::empty()
    } else {
        map_of(s.drop_first()).insert(s[0].0, s[0].1)
    }
}

/// Insertion into a sorted association sequence: an existing pair with the
/// same key is replaced, otherwise the new pair lands at its sorted place.
pub open spec fn sorted_insert(s: Seq<(u64, u64)>, k: u64, v: u64) -> Seq<(u64, u64)>
    decreases s.len(),
{
    if s.len() == 0 {
        seq![(k, v)]
    } else if k < s[0].0 {
        seq![(k, v)] + s
    } else if k == s[0].0 {
        seq![(k, v)] + s.drop_first()
    } else {
        seq![s[0]] + sorted_insert(s.drop_first(), k, v)
    }
}

/// Removal from an association sequence: the first pair carrying `k` is
/// dropped, everything else stays in order.
pub open spec fn remove_key(s: Seq<(u64, u64)>, k: u64) -> Seq<(u64, u64)>
    decreases s.len(),
{
    if s.len() == 0 {
        Seq::empty()
    } else if s[0].0 == k {
        s.drop_first()
    } else {
        seq![s[0]] + remove_key(s.drop_first(), k)
    }
}

/// The map denoted by inserting each pair of `s` in order into an empty map,
/// later pairs overwriting earlier ones; the model of bulk construction.
pub open spec fn folded_map(s: Seq<(u64, u64)>) -> Map<u64, u64>
    decreases s.len(),
{
    if s.len() == 0 {
        Map::empty()
    } else {
        folded_map(s.drop_last()).insert(s.last().0, s.last().1)
    }
}

/// The map left after removing every key of `ks` in order.
pub open spec fn removed_all(m: Map<u64, u64>, ks: Seq<u64>) -> Map<u64, u64>
    decreases ks.len(),
{
    if ks.len() == 0 {
        m
    } else {
        removed_all(m.remove(ks[0]), ks.drop_first())
    }
}

/// Membership in the denoted map coincides with carrying the key.
pub proof fn lemma_map_of_contains(s: Seq<(u64, u64)>, k: u64)
    ensures
        map_of(s).dom().contains(k) <==> has_key(s, k),
    decreases s.len(),
{
    if s.len() > 0 {
        lemma_map_of_contains(s.drop_first(), k);
        if has_key(s, k) && s[0].0 != k {
            let i = choose|i: int| 0 <= i < s.len() && s[i].0 == k;
            assert(s.drop_first()[i - 1].0 == k);
        }
        if has_key(s.drop_first(), k) {
            let i = choose|i: int| 0 <= i < s.drop_first().len() && s.drop_first()[i].0 == k;
            assert(s[i + 1].0 == k);
        }
    }
}

/// In a sorted sequence each pair is what the denoted map stores at its key.
pub proof fn lemma_map_of_index(s: Seq<(u64, u64)>, i: int)
    requires
        ssorted(s),
        0 <= i < s.len(),
    ensures
        map_of(s).dom().contains(s[i].0),
        map_of(s)[s[i].0] == s[i].1,
    decreases s.len(),
{
    if i == 0 {
        lemma_map_of_contains(s, s[0].0);
    } else {
        assert(ssorted(s.drop_first())) by {
            assert(forall|x: int, y: int|
                0 <= x < y < s.drop_first().len() ==> s.drop_first()[x].0 < s.drop_first()[y].0);
        }
        lemma_map_of_index(s.drop_first(), i - 1);
        assert(s.drop_first()[i - 1] == s[i]);
        assert(s[i].0 != s[0].0);
    }
}

/// A tail of a sorted sequence is sorted.
pub proof fn lemma_ssorted_drop_first(s: Seq<(u64, u64)>)
    requires
        ssorted(s),
        s.len() > 0,
    ensures
        ssorted(s.drop_first()),
{
    assert(forall|x: int, y: int|
        0 <= x < y < s.drop_first().len() ==> s.drop_first()[x].0 < s.drop_first()[y].0);
}

/// Both halves of a sorted concatenation are sorted, and every key of the
/// first half sits below every key of the second.
pub proof fn lemma_ssorted_split(a: Seq<(u64, u64)>, b: Seq<(u64, u64)>)
    requires
        ssorted(a + b),
    ensures
        ssorted(a),
        ssorted(b),
        forall|i: int, j: int|
            0 <= i < a.len() && 0 <= j < b.len() ==> #[trigger] a[i].0 < #[trigger] b[j].0,
{
    assert forall|i: int, j: int| 0 <= i < j < a.len() implies a[i].0 < a[j].0 by {
        assert((a + b)[i] == a[i] && (a + b)[j] == a[j]);
    }
    assert forall|i: int, j: int| 0 <= i < j < b.len() implies b[i].0 < b[j].0 by {
        assert((a + b)[a.len() + i] == b[i] && (a + b)[a.len() + j] == b[j]);
    }
    assert forall|i: int, j: int|
        0 <= i < a.len() && 0 <= j < b.len() implies #[trigger] a[i].0 < #[trigger] b[j].0 by {
        assert((a + b)[i] == a[i] && (a + b)[a.len() + j] == b[j]);
    }
}

/// Sequences sorted around a middle pair concatenate to a sorted sequence.
pub proof fn lemma_ssorted_three(a: Seq<(u64, u64)>, p: (u64, u64), b: Seq<(u64, u64)>)
    requires
        ssorted(a),
        ssorted(b),
        keys_below(a, p.0),
        keys_above(b, p.0),
    ensures
        ssorted(a + seq![p] + b),
{
    let s = a + seq![p] + b;
    assert forall|i: int, j: int| 0 <= i < j < s.len() implies s[i].0 < s[j].0 by {
        if i < a.len() {
            assert(s[i] == a[i]);
        } else if i == a.len() {
            assert(s[i] == p);
        } else {
            assert(s[i] == b[i - a.len() - 1]);
        }
        if j < a.len() {
            assert(s[j] == a[j]);
        } else if j == a.len() {
            assert(s[j] == p);
        } else {
            assert(s[j] == b[j - a.len() - 1]);
        }
    }
}

/// What `sorted_insert` does to sortedness, to the denoted map, to the
/// length, and to key membership.
pub proof fn lemma_sorted_insert_props(s: Seq<(u64, u64)>, k: u64, v: u64)
    requires
        ssorted(s),
    ensures
        ssorted(sorted_insert(s, k, v)),
        map_of(sorted_insert(s, k, v)) == map_of(s).insert(k, v),
        sorted_insert(s, k, v).len() == s.len() + if has_key(s, k) { 0int } else { 1int },
        forall|x: u64| has_key(sorted_insert(s, k, v), x) <==> (x == k || has_key(s, x)),
    decreases s.len(),
{
    let r = sorted_insert(s, k, v);
    if s.len() == 0 {
        assert(map_of(r) =~= map_of(s).insert(k, v)) by {
            assert(r == seq![(k, v)]);
            assert(r[0] == (k, v));
            assert(r.drop_first() =~= Seq::<(u64, u64)>::empty());
            assert(map_of(r.drop_first()) == Map::<u64, u64>::empty());
            assert(map_of(r) == map_of(r.drop_first()).insert(k, v));
        }
        assert(forall|x: u64| has_key(r, x) <==> (x == k || has_key(s, x))) by {
            assert(r[0].0 == k);
        }
    } else if k < s[0].0 {
        assert(r.drop_first() =~= s);
        assert(map_of(r) =~= map_of(s).insert(k, v));
        assert(!has_key(s, k));
        assert forall|x: u64| has_key(r, x) implies (x == k || has_key(s, x)) by {
            let i = choose|i: int| 0 <= i < r.len() && r[i].0 == x;
            if i > 0 {
                assert(s[i - 1].0 == x);
            }
        }
        assert forall|x: u64| (x == k || has_key(s, x)) implies has_key(r, x) by {
            if x == k {
                assert(r[0].0 == k);
            } else {
                let i = choose|i: int| 0 <= i < s.len() && s[i].0 == x;
                assert(r[i + 1].0 == x);
            }
        }
    } else if k == s[0].0 {
        lemma_ssorted_drop_first(s);
        assert(r.drop_first() =~= s.drop_first());
        lemma_map_of_contains(s.drop_first(), k);
        assert(!has_key(s.drop_first(), k));
        assert(map_of(r) =~= map_of(s).insert(k, v)) by {
            assert(map_of(r) == map_of(s.drop_first()).insert(k, v));
            assert(map_of(s) == map_of(s.drop_first()).insert(s[0].0, s[0].1));
        }
        assert(has_key(s, k)) by {
            assert(s[0].0 == k);
        }
        assert forall|x: u64| has_key(r, x) implies (x == k || has_key(s, x)) by {
            let i = choose|i: int| 0 <= i < r.len() && r[i].0 == x;
            if i > 0 {
                assert(s[i].0 == x);
            }
        }
        assert forall|x: u64| (x == k || has_key(s, x)) implies has_key(r, x) by {
            if x == k {
                assert(r[0].0 == k);
            } else {
                let i = choose|i: int| 0 <= i < s.len() && s[i].0 == x;
                assert(i > 0 && r[i].0 == x);
            }
        }
    } else {
        lemma_ssorted_drop_first(s);
        lemma_sorted_insert_props(s.drop_first(), k, v);
        let rt = sorted_insert(s.drop_first(), k, v);
        assert(r == seq![s[0]] + rt);
        assert(r.drop_first() =~= rt);
        assert(ssorted(r)) by {
            assert forall|i: int, j: int| 0 <= i < j < r.len() implies r[i].0 < r[j].0 by {
                if i == 0 {
                    assert(r[j] == rt[j - 1]);
                    assert(has_key(rt, rt[j - 1].0));
                } else {
                    assert(r[i] == rt[i - 1] && r[j] == rt[j - 1]);
                }
            }
        }
        assert(map_of(r) =~= map_of(s).insert(k, v)) by {
            assert(map_of(r) == map_of(rt).insert(s[0].0, s[0].1));
            assert(map_of(rt) == map_of(s.drop_first()).insert(k, v));
            assert(map_of(s) == map_of(s.drop_first()).insert(s[0].0, s[0].1));
        }
        assert(has_key(s, k) <==> has_key(s.drop_first(), k)) by {
            if has_key(s, k) {
                let i = choose|i: int| 0 <= i < s.len() && s[i].0 == k;
                assert(i > 0 && s.drop_first()[i - 1].0 == k);
            }
            if has_key(s.drop_first(), k) {
                let i = choose|i: int| 0 <= i < s.drop_first().len() && s.drop_first()[i].0 == k;
                assert(s[i + 1].0 == k);
            }
        }
        assert forall|x: u64| has_key(r, x) implies (x == k || has_key(s, x)) by {
            let i = choose|i: int| 0 <= i < r.len() && r[i].0 == x;
            if i == 0 {
                assert(s[0].0 == x);
            } else {
                assert(rt[i - 1].0 == x);
                assert(has_key(rt, x));
                if x != k {
                    assert(has_key(s.drop_first(), x));
                    let j = choose|j: int| 0 <= j < s.drop_first().len() && s.drop_first()[j].0 == x;
                    assert(s[j + 1].0 == x);
                }
            }
        }
        assert forall|x: u64| (x == k || has_key(s, x)) implies has_key(r, x) by {
            if x == k {
                assert(has_key(rt, x));
                let i = choose|i: int| 0 <= i < rt.len() && rt[i].0 == x;
                assert(r[i + 1].0 == x);
            } else {
                let i = choose|i: int| 0 <= i < s.len() && s[i].0 == x;
                if i == 0 {
                    assert(r[0].0 == x);
                } else {
                    assert(has_key(s.drop_first(), x)) by {
                        assert(s.drop_first()[i - 1].0 == x);
                    }
                    assert(has_key(rt, x));
                    let j = choose|j: int| 0 <= j < rt.len() && rt[j].0 == x;
                    assert(r[j + 1].0 == x);
                }
            }
        }
    }
}

/// What `remove_key` does to sortedness, to the denoted map, to the length,
/// and to key membership, on a sorted sequence.
pub proof fn lemma_remove_key_props(s: Seq<(u64, u64)>, k: u64)
    requires
        ssorted(s),
    ensures
        ssorted(remove_key(s, k)),
        map_of(remove_key(s, k)) == map_of(s).remove(k),
        remove_key(s, k).len() == s.len() - if has_key(s, k) { 1int } else { 0int },
        forall|x: u64| has_key(remove_key(s, k), x) <==> (has_key(s, x) && x != k),
    decreases s.len(),
{
    let r = remove_key(s, k);
    if s.len() == 0 {
        assert(map_of(r) =~= map_of(s).remove(k));
    } else if s[0].0 == k {
        lemma_ssorted_drop_first(s);
        lemma_map_of_contains(s.drop_first(), k);
        assert(!has_key(s.drop_first(), k));
        assert(map_of(r) =~= map_of(s).remove(k)) by {
            assert(map_of(s) == map_of(s.drop_first()).insert(k, s[0].1));
        }
        assert(has_key(s, k)) by {
            assert(s[0].0 == k);
        }
        assert forall|x: u64| has_key(r, x) implies (has_key(s, x) && x != k) by {
            let i = choose|i: int| 0 <= i < r.len() && r[i].0 == x;
            assert(s[i + 1].0 == x);
        }
        assert forall|x: u64| (has_key(s, x) && x != k) implies has_key(r, x) by {
            let i = choose|i: int| 0 <= i < s.len() && s[i].0 == x;
            assert(i > 0 && r[i - 1].0 == x);
        }
    } else {
        lemma_ssorted_drop_first(s);
        lemma_remove_key_props(s.drop_first(), k);
        let rt = remove_key(s.drop_first(), k);
        assert(r.drop_first() =~= rt);
        assert(ssorted(r)) by {
            assert forall|i: int, j: int| 0 <= i < j < r.len() implies r[i].0 < r[j].0 by {
                if i == 0 {
                    assert(r[j] == rt[j - 1]);
                    assert(has_key(rt, rt[j - 1].0));
                    assert(has_key(s.drop_first(), rt[j - 1].0));
                    let m = choose|m: int|
                        0 <= m < s.drop_first().len() && s.drop_first()[m].0 == rt[j - 1].0;
                    assert(s[m + 1].0 == rt[j - 1].0);
                } else {
                    assert(r[i] == rt[i - 1] && r[j] == rt[j - 1]);
                }
            }
        }
        assert(map_of(r) =~= map_of(s).remove(k)) by {
            assert(map_of(r) == map_of(rt).insert(s[0].0, s[0].1));
            assert(map_of(rt) == map_of(s.drop_first()).remove(k));
            assert(map_of(s) == map_of(s.drop_first()).insert(s[0].0, s[0].1));
        }
        assert(has_key(s, k) <==> has_key(s.drop_first(), k)) by {
            if has_key(s, k) {
                let i = choose|i: int| 0 <= i < s.len() && s[i].0 == k;
                assert(i > 0 && s.drop_first()[i - 1].0 == k);
            }
            if has_key(s.drop_first(), k) {
                let i = choose|i: int| 0 <= i < s.drop_first().len() && s.drop_first()[i].0 == k;
                assert(s[i + 1].0 == k);
            }
        }
        assert forall|x: u64| has_key(r, x) implies (has_key(s, x) && x != k) by {
            let i = choose|i: int| 0 <= i < r.len() && r[i].0 == x;
            if i == 0 {
                assert(s[0].0 == x);
            } else {
                assert(has_key(rt, x));
                assert(has_key(s.drop_first(), x));
                let j = choose|j: int| 0 <= j < s.drop_first().len() && s.drop_first()[j].0 == x;
                assert(s[j + 1].0 == x);
            }
        }
        assert forall|x: u64| (has_key(s, x) && x != k) implies has_key(r, x) by {
            let i = choose|i: int| 0 <= i < s.len() && s[i].0 == x;
            if i == 0 {
                assert(r[0].0 == x);
            } else {
                assert(has_key(s.drop_first(), x)) by {
                    assert(s.drop_first()[i - 1].0 == x);
                }
                assert(has_key(rt, x));
                let j = choose|j: int| 0 <= j < rt.len() && rt[j].0 == x;
                assert(r[j + 1].0 == x);
            }
        }
    }
}

/// Everything an ordered search learns by narrowing to a window: when a key
/// can only sit in the middle part of a sorted concatenation, lookup,
/// insertion and removal all happen inside that middle part.
pub proof fn lemma_window(
    pre: Seq<(u64, u64)>,
    mid: Seq<(u64, u64)>,
    post: Seq<(u64, u64)>,
    k: u64,
    v: u64,
)
    requires
        ssorted(pre + mid + post),
        keys_below(pre, k),
        keys_above(post, k),
    ensures
        has_key(pre + mid + post, k) <==> has_key(mid, k),
        has_key(mid, k) ==> map_of(pre + mid + post).dom().contains(k) && map_of(
            pre + mid + post,
        )[k] == map_of(mid)[k],
        !has_key(mid, k) ==> !map_of(pre + mid + post).dom().contains(k),
        remove_key(pre + mid + post, k) == pre + remove_key(mid, k) + post,
        sorted_insert(pre + mid + post, k, v) == pre + sorted_insert(mid, k, v) + post,
{
    let s = pre + mid + post;
    let tail = mid + post;
    assert(s =~= pre + tail);
    lemma_ssorted_split(pre, tail);
    lemma_ssorted_split(mid, post);
    assert(!has_key(pre, k)) by {
        if has_key(pre, k) {
            let i = choose|i: int| 0 <= i < pre.len() && pre[i].0 == k;
        }
    }
    assert(!has_key(post, k)) by {
        if has_key(post, k) {
            let i = choose|i: int| 0 <= i < post.len() && post[i].0 == k;
        }
    }
    assert(has_key(tail, k) <==> has_key(mid, k)) by {
        if has_key(tail, k) {
            let i = choose|i: int| 0 <= i < tail.len() && tail[i].0 == k;
            if i < mid.len() {
                assert(mid[i].0 == k);
            } else {
                assert(post[i - mid.len()].0 == k);
            }
        }
        if has_key(mid, k) {
            let i = choose|i: int| 0 <= i < mid.len() && mid[i].0 == k;
            assert(tail[i].0 == k);
        }
    }
    assert(has_key(s, k) <==> has_key(tail, k)) by {
        if has_key(s, k) {
            let i = choose|i: int| 0 <= i < s.len() && s[i].0 == k;
            if i < pre.len() {
                assert(pre[i].0 == k);
            } else {
                assert(tail[i - pre.len()].0 == k);
            }
        }
        if has_key(tail, k) {
            let i = choose|i: int| 0 <= i < tail.len() && tail[i].0 == k;
            assert(s[pre.len() + i].0 == k);
        }
    }
    // The denoted map agrees with the middle part on `k`.
    lemma_map_of_concat(pre, tail);
    lemma_map_of_concat(mid, post);
    lemma_map_of_contains(pre, k);
    lemma_map_of_contains(post, k);
    lemma_map_of_contains(mid, k);
    lemma_map_of_contains(tail, k);
    // Removal happens inside the middle part.
    lemma_remove_key_concat(pre, tail, k);
    lemma_remove_key_concat(mid, post, k);
    if has_key(mid, k) {
        assert(remove_key(s, k) == pre + (remove_key(mid, k) + post));
        assert(pre + (remove_key(mid, k) + post) =~= pre + remove_key(mid, k) + post);
    } else {
        lemma_remove_key_absent(mid, k);
        lemma_remove_key_absent(post, k);
        assert(remove_key(s, k) == pre + (mid + remove_key(post, k)));
        assert(pre + (mid + remove_key(post, k)) =~= pre + remove_key(mid, k) + post);
    }
    // Insertion happens inside the middle part.
    lemma_sorted_insert_concat_right(pre, tail, k, v);
    lemma_sorted_insert_concat_left(mid, post, k, v);
    assert(sorted_insert(s, k, v) == pre + (sorted_insert(mid, k, v) + post));
    assert(pre + (sorted_insert(mid, k, v) + post) =~= pre + sorted_insert(mid, k, v) + post);
}

/// A strict upper bound on the keys survives inserting a smaller key.
pub proof fn lemma_keys_below_insert(s: Seq<(u64, u64)>, k: u64, v: u64, x: u64)
    requires
        ssorted(s),
        keys_below(s, x),
        k < x,
    ensures
        keys_below(sorted_insert(s, k, v), x),
{
    lemma_sorted_insert_props(s, k, v);
    let r = sorted_insert(s, k, v);
    assert forall|i: int| 0 <= i < r.len() implies r[i].0 < x by {
        assert(has_key(r, r[i].0));
        if r[i].0 != k {
            assert(has_key(s, r[i].0));
            let j = choose|j: int| 0 <= j < s.len() && s[j].0 == r[i].0;
            assert(s[j].0 < x);
        }
    }
}

/// A strict lower bound on the keys survives inserting a larger key.
pub proof fn lemma_keys_above_insert(s: Seq<(u64, u64)>, k: u64, v: u64, x: u64)
    requires
        ssorted(s),
        keys_above(s, x),
        k > x,
    ensures
        keys_above(sorted_insert(s, k, v), x),
{
    lemma_sorted_insert_props(s, k, v);
    let r = sorted_insert(s, k, v);
    assert forall|i: int| 0 <= i < r.len() implies r[i].0 > x by {
        assert(has_key(r, r[i].0));
        if r[i].0 != k {
            assert(has_key(s, r[i].0));
            let j = choose|j: int| 0 <= j < s.len() && s[j].0 == r[i].0;
            assert(s[j].0 > x);
        }
    }
}

/// A strict upper bound on the keys survives any removal.
pub proof fn lemma_keys_below_remove(s: Seq<(u64, u64)>, k: u64, x: u64)
    requires
        ssorted(s),
        keys_below(s, x),
    ensures
        keys_below(remove_key(s, k), x),
{
    lemma_remove_key_props(s, k);
    let r = remove_key(s, k);
    assert forall|i: int| 0 <= i < r.len() implies r[i].0 < x by {
        assert(has_key(r, r[i].0));
        assert(has_key(s, r[i].0));
        let j = choose|j: int| 0 <= j < s.len() && s[j].0 == r[i].0;
        assert(s[j].0 < x);
    }
}

/// A strict lower bound on the keys survives any removal.
pub proof fn lemma_keys_above_remove(s: Seq<(u64, u64)>, k: u64, x: u64)
    requires
        ssorted(s),
        keys_above(s, x),
    ensures
        keys_above(remove_key(s, k), x),
{
    lemma_remove_key_props(s, k);
    let r = remove_key(s, k);
    assert forall|i: int| 0 <= i < r.len() implies r[i].0 > x by {
        assert(has_key(r, r[i].0));
        assert(has_key(s, r[i].0));
        let j = choose|j: int| 0 <= j < s.len() && s[j].0 == r[i].0;
        assert(s[j].0 > x);
    }
}

/// Removing a key that no pair carries changes nothing.
pub proof fn lemma_remove_key_absent(s: Seq<(u64, u64)>, k: u64)
    requires
        !has_key(s, k),
    ensures
        remove_key(s, k) == s,
    decreases s.len(),
{
    if s.len() > 0 {
        assert(s[0].0 != k);
        assert(!has_key(s.drop_first(), k)) by {
            if has_key(s.drop_first(), k) {
                let i = choose|i: int| 0 <= i < s.drop_first().len() && s.drop_first()[i].0 == k;
                assert(s[i + 1].0 == k);
            }
        }
        lemma_remove_key_absent(s.drop_first(), k);
        assert(seq![s[0]] + s.drop_first() =~= s);
    }
}

/// Concatenation denotes the union of the two maps, pairs of the first
/// half overriding pairs of the second on a shared key.
pub proof fn lemma_map_of_concat(a: Seq<(u64, u64)>, b: Seq<(u64, u64)>)
    ensures
        map_of(a + b) == map_of(b).union_prefer_right(map_of(a)),
    decreases a.len(),
{
    if a.len() == 0 {
        assert(a + b =~= b);
        assert(map_of(b).union_prefer_right(map_of(a)) =~= map_of(b));
    } else {
        lemma_map_of_concat(a.drop_first(), b);
        assert((a + b).drop_first() =~= a.drop_first() + b);
        assert(map_of(a + b) == map_of(a.drop_first() + b).insert(a[0].0, a[0].1));
        assert(map_of(b).union_prefer_right(map_of(a.drop_first())).insert(a[0].0, a[0].1)
            =~= map_of(b).union_prefer_right(map_of(a.drop_first()).insert(a[0].0, a[0].1)));
    }
}

/// Where a key can sit in a sequence that is sorted around a middle pair.
pub proof fn lemma_has_key_three(a: Seq<(u64, u64)>, p: (u64, u64), b: Seq<(u64, u64)>, k: u64)
    requires
        keys_below(a, p.0),
        keys_above(b, p.0),
    ensures
        has_key(a + seq![p] + b, k) <==> if k < p.0 {
            has_key(a, k)
        } else if k == p.0 {
            true
        } else {
            has_key(b, k)
        },
{
    let s = a + seq![p] + b;
    assert(s[a.len() as int] == p);
    if has_key(s, k) {
        let i = choose|i: int| 0 <= i < s.len() && s[i].0 == k;
        if i < a.len() {
            assert(s[i] == a[i]);
        } else if i > a.len() {
            assert(s[i] == b[i - a.len() - 1]);
        }
    }
    if k < p.0 && has_key(a, k) {
        let i = choose|i: int| 0 <= i < a.len() && a[i].0 == k;
        assert(s[i].0 == k);
    }
    if k > p.0 && has_key(b, k) {
        let i = choose|i: int| 0 <= i < b.len() && b[i].0 == k;
        assert(s[a.len() + 1 + i].0 == k);
    }
}

/// A bound above all three parts bounds their concatenation.
pub proof fn lemma_keys_below_three(a: Seq<(u64, u64)>, p: (u64, u64), b: Seq<(u64, u64)>, x: u64)
    requires
        keys_below(a, x),
        p.0 < x,
        keys_below(b, x),
    ensures
        keys_below(a + seq![p] + b, x),
{
    let s = a + seq![p] + b;
    assert forall|i: int| 0 <= i < s.len() implies s[i].0 < x by {
        if i < a.len() {
            assert(s[i] == a[i]);
        } else if i == a.len() {
            assert(s[i] == p);
        } else {
            assert(s[i] == b[i - a.len() - 1]);
        }
    }
}

/// A bound below all three parts bounds their concatenation.
pub proof fn lemma_keys_above_three(a: Seq<(u64, u64)>, p: (u64, u64), b: Seq<(u64, u64)>, x: u64)
    requires
        keys_above(a, x),
        p.0 > x,
        keys_above(b, x),
    ensures
        keys_above(a + seq![p] + b, x),
{
    let s = a + seq![p] + b;
    assert forall|i: int| 0 <= i < s.len() implies s[i].0 > x by {
        if i < a.len() {
            assert(s[i] == a[i]);
        } else if i == a.len() {
            assert(s[i] == p);
        } else {
            assert(s[i] == b[i - a.len() - 1]);
        }
    }
}

/// A bound above a concatenation bounds each part.
pub proof fn lemma_keys_below_split(a: Seq<(u64, u64)>, p: (u64, u64), b: Seq<(u64, u64)>, x: u64)
    requires
        keys_below(a + seq![p] + b, x),
    ensures
        keys_below(a, x),
        p.0 < x,
        keys_below(b, x),
{
    let s = a + seq![p] + b;
    assert(s[a.len() as int] == p);
    assert forall|i: int| 0 <= i < a.len() implies a[i].0 < x by {
        assert(s[i] == a[i]);
    }
    assert forall|i: int| 0 <= i < b.len() implies b[i].0 < x by {
        assert(s[a.len() + 1 + i] == b[i]);
    }
}

/// A bound below a concatenation bounds each part.
pub proof fn lemma_keys_above_split(a: Seq<(u64, u64)>, p: (u64, u64), b: Seq<(u64, u64)>, x: u64)
    requires
        keys_above(a + seq![p] + b, x),
    ensures
        keys_above(a, x),
        p.0 > x,
        keys_above(b, x),
{
    let s = a + seq![p] + b;
    assert(s[a.len() as int] == p);
    assert forall|i: int| 0 <= i < a.len() implies a[i].0 > x by {
        assert(s[i] == a[i]);
    }
    assert forall|i: int| 0 <= i < b.len() implies b[i].0 > x by {
        assert(s[a.len() + 1 + i] == b[i]);
    }
}

/// Inserting a key that sits above everything in `a` happens inside `b`.
pub proof fn lemma_sorted_insert_concat_right(
    a: Seq<(u64, u64)>,
    b: Seq<(u64, u64)>,
    k: u64,
    v: u64,
)
    requires
        ssorted(a + b),
        keys_below(a, k),
    ensures
        sorted_insert(a + b, k, v) == a + sorted_insert(b, k, v),
    decreases a.len(),
{
    if a.len() == 0 {
        assert(a + b =~= b);
        assert(a + sorted_insert(b, k, v) =~= sorted_insert(b, k, v));
    } else {
        let s = a + b;
        assert(s[0] == a[0]);
        assert(k > s[0].0);
        lemma_ssorted_drop_first(s);
        assert(s.drop_first() =~= a.drop_first() + b);
        assert(keys_below(a.drop_first(), k));
        lemma_sorted_insert_concat_right(a.drop_first(), b, k, v);
        assert(sorted_insert(s, k, v) == seq![s[0]] + (a.drop_first() + sorted_insert(b, k, v)));
        assert(seq![s[0]] + (a.drop_first() + sorted_insert(b, k, v)) =~= a + sorted_insert(
            b,
            k,
            v,
        ));
    }
}

/// Inserting a key that sits below everything in `b` happens inside `a`.
pub proof fn lemma_sorted_insert_concat_left(
    a: Seq<(u64, u64)>,
    b: Seq<(u64, u64)>,
    k: u64,
    v: u64,
)
    requires
        ssorted(a + b),
        keys_above(b, k),
    ensures
        sorted_insert(a + b, k, v) == sorted_insert(a, k, v) + b,
    decreases a.len(),
{
    let s = a + b;
    if a.len() == 0 {
        assert(s =~= b);
        if b.len() == 0 {
            assert(sorted_insert(a, k, v) + b =~= sorted_insert(b, k, v));
        } else {
            assert(k < b[0].0);
            assert(sorted_insert(b, k, v) == seq![(k, v)] + b);
            assert(sorted_insert(a, k, v) + b =~= seq![(k, v)] + b);
        }
    } else {
        assert(s[0] == a[0]);
        if k < a[0].0 {
            assert(sorted_insert(s, k, v) == seq![(k, v)] + s);
            assert(sorted_insert(a, k, v) + b =~= seq![(k, v)] + s);
        } else if k == a[0].0 {
            assert(sorted_insert(s, k, v) == seq![(k, v)] + s.drop_first());
            assert(s.drop_first() =~= a.drop_first() + b);
            assert(sorted_insert(a, k, v) + b =~= seq![(k, v)] + (a.drop_first() + b));
        } else {
            lemma_ssorted_drop_first(s);
            assert(s.drop_first() =~= a.drop_first() + b);
            lemma_sorted_insert_concat_left(a.drop_first(), b, k, v);
            assert(sorted_insert(s, k, v) == seq![s[0]] + (sorted_insert(a.drop_first(), k, v)
                + b));
            assert(sorted_insert(a, k, v) == seq![a[0]] + sorted_insert(a.drop_first(), k, v));
            assert(seq![s[0]] + (sorted_insert(a.drop_first(), k, v) + b) =~= sorted_insert(
                a,
                k,
                v,
            ) + b);
        }
    }
}

/// Removal from a concatenation happens in the half that carries the key.
pub proof fn lemma_remove_key_concat(a: Seq<(u64, u64)>, b: Seq<(u64, u64)>, k: u64)
    requires
        ssorted(a + b),
    ensures
        remove_key(a + b, k) == if has_key(a, k) {
            remove_key(a, k) + b
        } else {
            a + remove_key(b, k)
        },
    decreases a.len(),
{
    let s = a + b;
    if a.len() == 0 {
        assert(s =~= b);
        assert(!has_key(a, k));
        assert(a + remove_key(b, k) =~= remove_key(b, k));
    } else {
        assert(s[0] == a[0]);
        if a[0].0 == k {
            assert(has_key(a, k)) by {
                assert(a[0].0 == k);
            }
            assert(remove_key(s, k) == s.drop_first());
            assert(remove_key(a, k) == a.drop_first());
            assert(s.drop_first() =~= a.drop_first() + b);
        } else {
            lemma_ssorted_drop_first(s);
            assert(s.drop_first() =~= a.drop_first() + b);
            lemma_remove_key_concat(a.drop_first(), b, k);
            assert(has_key(a, k) <==> has_key(a.drop_first(), k)) by {
                if has_key(a, k) {
                    let i = choose|i: int| 0 <= i < a.len() && a[i].0 == k;
                    assert(i > 0 && a.drop_first()[i - 1].0 == k);
                }
                if has_key(a.drop_first(), k) {
                    let i = choose|i: int|
                        0 <= i < a.drop_first().len() && a.drop_first()[i].0 == k;
                    assert(a[i + 1].0 == k);
                }
            }
            if has_key(a, k) {
                assert(remove_key(s, k) == seq![s[0]] + (remove_key(a.drop_first(), k) + b));
                assert(remove_key(a, k) == seq![a[0]] + remove_key(a.drop_first(), k));
                assert(seq![s[0]] + (remove_key(a.drop_first(), k) + b) =~= remove_key(a, k) + b);
            } else {
                assert(remove_key(s, k) == seq![s[0]] + (a.drop_first() + remove_key(b, k)));
                assert(seq![s[0]] + (a.drop_first() + remove_key(b, k)) =~= a + remove_key(b, k));
            }
        }
    }
}

} // verus!
