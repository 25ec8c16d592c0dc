//! Laws that relate several operations of the ordered-map model that both
//! tree containers implement: what two inserts of one key leave behind,
//! and what inserting a batch of pairs and then removing all their keys
//! leaves behind.

use vstd::prelude::*;

use crate::pairs::{
    folded_map, has_key, lemma_map_of_contains, lemma_sorted_insert_props, lemma_ssorted_drop_first,
    map_of, removed_all, sorted_insert, ssorted,
};

verus! {

/// Overwriting is idempotent on the shape: inserting a key twice leaves
/// the same pairs as inserting it once with the second value, so the
/// second insert changes no length, and a lookup answers the second
/// value. Both containers promise `sorted_insert` of their pair sequence
/// on every insert, so this law speaks about any two inserts of one key.
pub proof fn lemma_overwrite(s: Seq<(u64, u64)>, k: u64, v1: u64, v2: u64)
    requires
        ssorted(s),
    ensures
        sorted_insert(sorted_insert(s, k, v1), k, v2) == sorted_insert(s, k, v2),
        sorted_insert(sorted_insert(s, k, v1), k, v2).len() == sorted_insert(s, k, v1).len(),
        map_of(sorted_insert(s, k, v2))[k] == v2,
    decreases s.len(),
{
    let r1 = sorted_insert(s, k, v1);
    lemma_sorted_insert_props(s, k, v1);
    lemma_sorted_insert_props(s, k, v2);
    lemma_sorted_insert_props(r1, k, v2);
    assert(has_key(r1, k));
    if s.len() == 0 {
        assert(r1 == seq![(k, v1)]);
        assert(r1[0].0 == k);
        assert(sorted_insert(r1, k, v2) == seq![(k, v2)] + r1.drop_first());
        assert(seq![(k, v2)] + r1.drop_first() =~= sorted_insert(s, k, v2));
    } else if k < s[0].0 {
        assert(r1 == seq![(k, v1)] + s);
        assert(r1[0].0 == k);
        assert(sorted_insert(r1, k, v2) == seq![(k, v2)] + r1.drop_first());
        assert(r1.drop_first() =~= s);
        assert(sorted_insert(s, k, v2) == seq![(k, v2)] + s);
    } else if k == s[0].0 {
        assert(r1 == seq![(k, v1)] + s.drop_first());
        assert(r1[0].0 == k);
        assert(sorted_insert(r1, k, v2) == seq![(k, v2)] + r1.drop_first());
        assert(r1.drop_first() =~= s.drop_first());
        assert(sorted_insert(s, k, v2) == seq![(k, v2)] + s.drop_first());
    } else {
        lemma_ssorted_drop_first(s);
        lemma_overwrite(s.drop_first(), k, v1, v2);
        let rt1 = sorted_insert(s.drop_first(), k, v1);
        assert(r1 == seq![s[0]] + rt1);
        assert(r1[0] == s[0]);
        assert(k > r1[0].0);
        assert(sorted_insert(r1, k, v2) == seq![r1[0]] + sorted_insert(
            r1.drop_first(),
            k,
            v2,
        ));
        assert(r1.drop_first() =~= rt1);
        assert(sorted_insert(s, k, v2) == seq![s[0]] + sorted_insert(s.drop_first(), k, v2));
    }
}

/// Inserting a batch of pairs into an empty map and then removing every
/// key the batch mentions returns the empty map: both containers promise
/// `folded_map` of the batch after bulk construction, `Map::insert` on
/// every insert and `Map::remove` on every remove, and report themselves
/// empty exactly on the empty map, so a tree that goes through such a
/// round trip ends empty with nothing left behind.
pub proof fn lemma_insert_remove_round_trip(ps: Seq<(u64, u64)>, ks: Seq<u64>)
    requires
        forall|i: int| 0 <= i < ps.len() ==> ks.contains((#[trigger] ps[i]).0),
    ensures
        removed_all(folded_map(ps), ks) == Map::<u64, u64>::empty(),
{
    lemma_removed_all_dom(folded_map(ps), ks);
    assert(removed_all(folded_map(ps), ks) =~= Map::<u64, u64>::empty()) by {
        assert forall|x: u64|
            !(#[trigger] removed_all(folded_map(ps), ks).dom().contains(x)) by {
            if removed_all(folded_map(ps), ks).dom().contains(x) {
                assert(folded_map(ps).dom().contains(x) && !ks.contains(x));
                lemma_folded_map_keys(ps, x);
                let i = choose|i: int| 0 <= i < ps.len() && ps[i].0 == x;
                assert(ks.contains(ps[i].0));
            }
        }
    }
}

/// The keys of a batch cover the domain of the map it folds to.
pub proof fn lemma_folded_map_keys(ps: Seq<(u64, u64)>, x: u64)
    ensures
        folded_map(ps).dom().contains(x) ==> has_key(ps, x),
    decreases ps.len(),
{
    if ps.len() > 0 {
        lemma_folded_map_keys(ps.drop_last(), x);
        if folded_map(ps).dom().contains(x) {
            if x == ps.last().0 {
                assert(ps[ps.len() - 1].0 == x);
            } else {
                assert(folded_map(ps.drop_last()).dom().contains(x));
                let i = choose|i: int| 0 <= i < ps.drop_last().len() && ps.drop_last()[i].0 == x;
                assert(ps[i].0 == x);
            }
        }
    }
}

/// Removing a run of keys removes exactly those keys from the domain.
pub proof fn lemma_removed_all_dom(m: Map<u64, u64>, ks: Seq<u64>)
    ensures
        forall|x: u64|
            #[trigger] removed_all(m, ks).dom().contains(x) <==> (m.dom().contains(x)
                && !ks.contains(x)),
    decreases ks.len(),
{
    if ks.len() > 0 {
        lemma_removed_all_dom(m.remove(ks[0]), ks.drop_first());
        assert forall|x: u64|
            #[trigger] removed_all(m, ks).dom().contains(x) <==> (m.dom().contains(x)
                && !ks.contains(x)) by {
            assert(removed_all(m, ks) == removed_all(m.remove(ks[0]), ks.drop_first()));
            assert(ks.contains(x) <==> (x == ks[0] || ks.drop_first().contains(x))) by {
                if ks.contains(x) && x != ks[0] {
                    let i = choose|i: int| 0 <= i < ks.len() && ks[i] == x;
                    assert(ks.drop_first()[i - 1] == x);
                }
                if ks.drop_first().contains(x) {
                    let i = choose|i: int| 0 <= i < ks.drop_first().len() && ks.drop_first()[i]
                        == x;
                    assert(ks[i + 1] == x);
                }
            }
        }
    }
}

} // verus!
