//! One side of a book: price levels, keyed by their price in ticks.
use crate::number::Real;
use std::collections::BTreeMap;
use vstd::prelude::*;

verus! {

broadcast use vstd::std_specs::btree::group_btree_axioms;

/// Whether keys stand in strictly ascending order.
pub open spec fn is_ascending(keys: Seq<i64>) -> bool {
    forall|i: int, j: int| 0 <= i < j < keys.len() ==> keys[i] < keys[j]
}

/// Whether a sequence lists the keys of a map from the lowest to the highest.
pub open spec fn lists_keys<V>(keys: Seq<i64>, m: Map<i64, V>) -> bool {
    &&& is_ascending(keys)
    &&& forall|i: int| 0 <= i < keys.len() ==> m.contains_key(#[trigger] keys[i])
    &&& forall|k: i64| #[trigger] m.contains_key(k) ==> keys.contains(k)
}

/// The keys of a map from the lowest to the highest.
pub open spec fn ordered_keys<V>(m: Map<i64, V>) -> Seq<i64> {
    choose|keys: Seq<i64>| lists_keys(keys, m)
}

/// The levels of a side from the lowest price to the highest.
pub open spec fn upward<R>(m: Map<i64, R>) -> Seq<(i64, R)> {
    ordered_keys(m).map_values(|k: i64| (k, m[k]))
}

/// The levels of a side from the highest price to the lowest.
pub open spec fn downward<R>(m: Map<i64, R>) -> Seq<(i64, R)> {
    upward(m).reverse()
}

/// Whether a key is the lowest of a map.
pub open spec fn is_lowest<V>(m: Map<i64, V>, k: i64) -> bool {
    m.contains_key(k) && forall|j: i64| #[trigger] m.contains_key(j) ==> k <= j
}

/// Whether a key is the highest of a map.
pub open spec fn is_highest<V>(m: Map<i64, V>, k: i64) -> bool {
    m.contains_key(k) && forall|j: i64| #[trigger] m.contains_key(j) ==> j <= k
}

/// The level with the lowest price.
pub open spec fn lowest<R>(m: Map<i64, R>) -> Option<(i64, R)> {
    if exists|k: i64| is_lowest(m, k) {
        let k = choose|k: i64| is_lowest(m, k);
        Some((k, m[k]))
    } else {
        None
    }
}

/// The level with the highest price.
pub open spec fn highest<R>(m: Map<i64, R>) -> Option<(i64, R)> {
    if exists|k: i64| is_highest(m, k) {
        let k = choose|k: i64| is_highest(m, k);
        Some((k, m[k]))
    } else {
        None
    }
}

/// There is only one ascending listing of the keys of a map.
pub proof fn lemma_listing_unique<V>(a: Seq<i64>, b: Seq<i64>, m: Map<i64, V>)
    requires
        lists_keys(a, m),
        lists_keys(b, m),
    ensures
        a == b,
    decreases a.len(),
{
    if a.len() == 0 {
        if b.len() > 0 {
            assert(m.contains_key(b[0]));
            assert(a.contains(b[0]));
        }
    } else {
        assert(m.contains_key(a.last()));
        assert(b.contains(a.last()));
        assert(m.contains_key(b.last()));
        assert(a.contains(b.last()));
        let i = choose|i: int| 0 <= i < a.len() && a[i] == b.last();
        let j = choose|j: int| 0 <= j < b.len() && b[j] == a.last();
        assert(a.last() == b.last());
        let rest = m.remove(a.last());
        lemma_listing_drop_last(a, m);
        lemma_listing_drop_last(b, m);
        lemma_listing_unique(a.drop_last(), b.drop_last(), rest);
        assert(a =~= a.drop_last().push(a.last()));
        assert(b =~= b.drop_last().push(b.last()));
    }
}

proof fn lemma_listing_drop_last<V>(a: Seq<i64>, m: Map<i64, V>)
    requires
        lists_keys(a, m),
        a.len() > 0,
    ensures
        lists_keys(a.drop_last(), m.remove(a.last())),
{
    let rest = m.remove(a.last());
    assert forall|k: i64| #[trigger] rest.contains_key(k) implies a.drop_last().contains(k) by {
        assert(m.contains_key(k));
        let i = choose|i: int| 0 <= i < a.len() && a[i] == k;
        assert(a.drop_last()[i] == k);
    }
    assert forall|i: int| 0 <= i < a.drop_last().len() implies rest.contains_key(
        #[trigger] a.drop_last()[i],
    ) by {
        assert(m.contains_key(a[i]));
    }
}

/// A finite map that is not empty has a highest key.
pub proof fn lemma_highest_exists<V>(m: Map<i64, V>) -> (k: i64)
    requires
        m.dom().finite(),
        m.dom().len() > 0,
    ensures
        is_highest(m, k),
    decreases m.dom().len(),
{
    let some = m.dom().choose();
    let rest = m.remove(some);
    if rest.dom().len() == 0 {
        assert forall|j: i64| #[trigger] m.contains_key(j) implies j <= some by {
            if j != some {
                assert(rest.dom().contains(j));
            }
        }
        some
    } else {
        let high = lemma_highest_exists(rest);
        let k = if high < some {
            some
        } else {
            high
        };
        assert forall|j: i64| #[trigger] m.contains_key(j) implies j <= k by {
            assert(j != some ==> rest.contains_key(j));
        }
        k
    }
}

/// The keys of a finite map can be listed.
pub proof fn lemma_listing_exists<V>(m: Map<i64, V>)
    requires
        m.dom().finite(),
    ensures
        lists_keys(ordered_keys(m), m),
    decreases m.dom().len(),
{
    if m.dom().len() == 0 {
        assert(forall|k: i64| !#[trigger] m.contains_key(k)) by {
            assert forall|k: i64| !#[trigger] m.contains_key(k) by {
                assert(m.dom() =~= Set::empty());
            }
        }
        assert(lists_keys(Seq::empty(), m));
    } else {
        let high = lemma_highest_exists(m);
        let rest = m.remove(high);
        lemma_listing_exists(rest);
        let keys = ordered_keys(rest).push(high);
        assert forall|i: int| 0 <= i < keys.len() implies m.contains_key(#[trigger] keys[i]) by {
            if i < keys.len() - 1 {
                assert(rest.contains_key(ordered_keys(rest)[i]));
            }
        }
        assert forall|i: int, j: int| 0 <= i < j < keys.len() implies keys[i] < keys[j] by {
            if j == keys.len() - 1 {
                assert(rest.contains_key(ordered_keys(rest)[i]));
                assert(m.contains_key(keys[i]));
            }
        }
        assert forall|k: i64| #[trigger] m.contains_key(k) implies keys.contains(k) by {
            if k == high {
                assert(keys[keys.len() - 1] == k);
            } else {
                assert(rest.contains_key(k));
                let i = ordered_keys(rest).index_of(k);
                assert(keys[i] == k);
            }
        }
        assert(lists_keys(keys, m));
    }
}

/// The levels of a side from the lowest price to the highest.
pub fn climb<R: Real>(m: &BTreeMap<i64, R>) -> (r: Vec<(i64, R)>)
    ensures
        r@ == upward(m@),
{
    broadcast use vstd::std_specs::btree::axiom_increasing_seq_meaning;

    let mut out: Vec<(i64, R)> = Vec::new();
    let walk = m.iter();
    let ghost walked = vstd::std_specs::iter::IteratorSpec::remaining(&walk);
    let ghost keys = walked.map_values(|kv: (&i64, &R)| *kv.0);
    proof {
        assert(vstd::std_specs::btree::increasing_seq(keys));
        assert forall|i: int, j: int| 0 <= i < j < keys.len() implies keys[i] < keys[j] by {
            assert(vstd::std_specs::cmp::OrdSpec::cmp_spec(&keys[i], &keys[j]) is Less);
        }
        assert forall|i: int| 0 <= i < keys.len() implies m@.contains_key(
            #[trigger] keys[i],
        ) by {
            assert(m@.contains_key(*walked[i].0));
        }
        assert forall|k: i64| #[trigger] m@.contains_key(k) implies keys.contains(k) by {
            let i = walked.index_of((&k, &m@[k]));
            assert(walked.contains((&k, &m@[k])));
            assert(keys[i] == k);
        }
        assert(lists_keys(keys, m@));
        lemma_listing_unique(keys, ordered_keys(m@), m@);
    }
    for x in it: m.iter()
        invariant
            it.seq() == walked,
            out@.len() == it.index(),
            forall|i: int| 0 <= i < out.len() ==> out[i] == (*walked[i].0, *walked[i].1),
    {
        out.push((*x.0, *x.1));
    }
    proof {
        assert forall|i: int| 0 <= i < out.len() implies out[i] == upward(m@)[i] by {
            assert(m@[*walked[i].0] == *walked[i].1);
            assert(keys[i] == *walked[i].0);
        }
        assert(out@ =~= upward(m@));
    }
    out
}

/// The first key of an ascending listing is the lowest.
proof fn lemma_first_is_lowest<R>(keys: Seq<i64>, m: Map<i64, R>)
    requires
        lists_keys(keys, m),
    ensures
        lowest(m) == if keys.len() > 0 {
            Some((keys[0], m[keys[0]]))
        } else {
            None
        },
{
    if keys.len() > 0 {
        assert forall|j: i64| #[trigger] m.contains_key(j) implies keys[0] <= j by {
            let i = choose|i: int| 0 <= i < keys.len() && keys[i] == j;
        }
        assert(m.contains_key(keys[0]));
        assert(is_lowest(m, keys[0]));
    }
}

/// The level with the lowest price: the first that the map lists.
pub(crate) fn first_level<R: Real>(m: &BTreeMap<i64, R>) -> (r: Option<(i64, R)>)
    ensures
        r == lowest(m@),
{
    broadcast use vstd::std_specs::btree::axiom_increasing_seq_meaning;

    let walk = m.iter();
    let ghost walked = vstd::std_specs::iter::IteratorSpec::remaining(&walk);
    let ghost keys = walked.map_values(|kv: (&i64, &R)| *kv.0);
    proof {
        assert(vstd::std_specs::btree::increasing_seq(keys));
        assert forall|i: int, j: int| 0 <= i < j < keys.len() implies keys[i] < keys[j] by {
            assert(vstd::std_specs::cmp::OrdSpec::cmp_spec(&keys[i], &keys[j]) is Less);
        }
        assert forall|k: i64| #[trigger] m@.contains_key(k) implies keys.contains(k) by {
            let i = walked.index_of((&k, &m@[k]));
            assert(walked.contains((&k, &m@[k])));
            assert(keys[i] == k);
        }
        assert forall|i: int| 0 <= i < keys.len() implies m@.contains_key(
            #[trigger] keys[i],
        ) by {
            assert(m@.contains_key(*walked[i].0));
        }
        assert(lists_keys(keys, m@));
        lemma_first_is_lowest(keys, m@);
        assert(walked.len() > 0 ==> lowest(m@) == Some((*walked[0].0, *walked[0].1))) by {
            assert(walked.len() > 0 ==> m@[*walked[0].0] == *walked[0].1);
        }
    }
    for x in it: m.iter()
        invariant
            it.seq() == walked,
            it.index() == 0,
            walked.len() > 0 ==> lowest(m@) == Some((*walked[0].0, *walked[0].1)),
            walked.len() == 0 ==> lowest(m@) is None,
    {
        return Some((*x.0, *x.1));
    }
    None
}

/// The level with the highest price, by `BTreeMap::last_key_value` of the standard library, which
/// returns the pair of the maximum key, or nothing where the map is empty. The specified iterator of a
/// map goes upward only, so that a walk to its end would cost the whole side at each look at its top.
#[verifier::external_body]
pub(crate) fn last_level<R: Real>(m: &BTreeMap<i64, R>) -> (r: Option<(i64, R)>)
    ensures
        r == highest(m@),
{
    m.last_key_value().map(|kv| (*kv.0, *kv.1))
}

} // verus!
