//! Ordering by a key that keeps items of one key in the order they came in.

use crate::tree_attack::TreeAttackNode;
use vstd::prelude::*;
use vstd::seq_lib::{to_multiset_build, to_multiset_insert};

verus! {

/// `sorted` with `x` put behind every item whose key is no larger.
pub open spec fn place<A>(sorted: Seq<A>, x: A, key: spec_fn(A) -> int) -> Seq<A>
    decreases sorted.len(),
{
    if sorted.len() == 0 || key(sorted.last()) <= key(x) {
        sorted.push(x)
    } else {
        place(sorted.drop_last(), x, key).push(sorted.last())
    }
}

/// The items in the order of their keys; items of one key stay in the order
/// they came in.
pub open spec fn ordered<A>(items: Seq<A>, key: spec_fn(A) -> int) -> Seq<A>
    decreases items.len(),
{
    if items.len() == 0 {
        Seq::empty()
    } else {
        place(ordered(items.drop_last(), key), items.last(), key)
    }
}

/// The keys of the items do not fall from one to the next.
pub open spec fn rising<A>(items: Seq<A>, key: spec_fn(A) -> int) -> bool {
    forall|a: int, b: int| 0 <= a <= b < items.len() ==> key(items[a]) <= key(items[b])
}

/// The place of `x` is the index `j` where the items with a larger key
/// begin, reckoned from the end.
pub proof fn lemma_place_at<A>(sorted: Seq<A>, x: A, key: spec_fn(A) -> int, j: int)
    requires
        0 <= j <= sorted.len(),
        forall|k: int| j <= k < sorted.len() ==> key(#[trigger] sorted[k]) > key(x),
        j > 0 ==> key(sorted[j - 1]) <= key(x),
    ensures
        place(sorted, x, key) == sorted.insert(j, x),
    decreases sorted.len(),
{
    if j == sorted.len() {
        if sorted.len() > 0 {
            assert(sorted.last() == sorted[j - 1]);
        }
        assert(sorted.insert(j, x) =~= sorted.push(x));
    } else {
        assert(key(sorted[sorted.len() - 1]) > key(x));
        let init = sorted.drop_last();
        assert forall|k: int| j <= k < init.len() implies key(#[trigger] init[k]) > key(x) by {
            assert(init[k] == sorted[k]);
        }
        if j > 0 {
            assert(init[j - 1] == sorted[j - 1]);
        }
        lemma_place_at(init, x, key, j);
        assert(init.insert(j, x).push(sorted.last()) =~= sorted.insert(j, x));
    }
}

/// Putting an item in its place adds it, and nothing else.
pub proof fn lemma_place_multiset<A>(sorted: Seq<A>, x: A, key: spec_fn(A) -> int)
    ensures
        place(sorted, x, key).len() == sorted.len() + 1,
        place(sorted, x, key).to_multiset() == sorted.to_multiset().insert(x),
    decreases sorted.len(),
{
    broadcast use vstd::multiset::group_multiset_axioms;

    if sorted.len() == 0 || key(sorted.last()) <= key(x) {
        to_multiset_build(sorted, x);
    } else {
        let init = sorted.drop_last();
        lemma_place_multiset(init, x, key);
        to_multiset_build(place(init, x, key), sorted.last());
        to_multiset_build(init, sorted.last());
        assert(init.push(sorted.last()) =~= sorted);
        assert(place(sorted, x, key).to_multiset() =~= sorted.to_multiset().insert(x));
    }
}

/// Ordering keeps the items, each as often as it came.
pub proof fn lemma_ordered_multiset<A>(items: Seq<A>, key: spec_fn(A) -> int)
    ensures
        ordered(items, key).len() == items.len(),
        ordered(items, key).to_multiset() == items.to_multiset(),
    decreases items.len(),
{
    if items.len() > 0 {
        let init = items.drop_last();
        lemma_ordered_multiset(init, key);
        lemma_place_multiset(ordered(init, key), items.last(), key);
        to_multiset_build(init, items.last());
        assert(init.push(items.last()) =~= items);
        assert(ordered(items, key).to_multiset() == init.to_multiset().insert(items.last()));
    } else {
        assert(items =~= Seq::<A>::empty());
    }
}

/// An item put in its place among rising items leaves them rising.
pub proof fn lemma_place_rising<A>(sorted: Seq<A>, x: A, key: spec_fn(A) -> int)
    requires
        rising(sorted, key),
    ensures
        rising(place(sorted, x, key), key),
    decreases sorted.len(),
{
    let placed = place(sorted, x, key);
    if sorted.len() == 0 || key(sorted.last()) <= key(x) {
        assert forall|a: int, b: int| 0 <= a <= b < placed.len() implies key(placed[a]) <= key(
            placed[b],
        ) by {
            if b == sorted.len() && a < sorted.len() {
                assert(key(sorted[a]) <= key(sorted[sorted.len() - 1]));
            }
        }
    } else {
        let init = sorted.drop_last();
        assert(rising(init, key)) by {
            assert forall|a: int, b: int| 0 <= a <= b < init.len() implies key(init[a]) <= key(
                init[b],
            ) by {
                assert(key(sorted[a]) <= key(sorted[b]));
            }
        }
        lemma_place_rising(init, x, key);
        lemma_place_multiset(init, x, key);
        let inner = place(init, x, key);
        assert forall|a: int, b: int| 0 <= a <= b < placed.len() implies key(placed[a]) <= key(
            placed[b],
        ) by {
            if b == placed.len() - 1 && a < b {
                // every item of `inner` is `x` or an item of `init`
                inner.to_multiset_ensures();
                init.to_multiset_ensures();
                assert(inner.contains(inner[a]));
                if inner[a] != x {
                    assert(init.to_multiset().insert(x).count(inner[a]) > 0);
                    assert(init.contains(inner[a]));
                    let t = choose|t: int| 0 <= t < init.len() && init[t] == inner[a];
                    assert(key(sorted[t]) <= key(sorted[sorted.len() - 1]));
                }
            } else if a < b {
                assert(key(inner[a]) <= key(inner[b]));
            }
        }
    }
}

/// What is ordered rises.
pub proof fn lemma_ordered_rising<A>(items: Seq<A>, key: spec_fn(A) -> int)
    ensures
        rising(ordered(items, key), key),
    decreases items.len(),
{
    if items.len() > 0 {
        lemma_ordered_rising(items.drop_last(), key);
        lemma_place_rising(ordered(items.drop_last(), key), items.last(), key);
    }
}

/// Putting in its place what is mapped is mapping what is put in its place,
/// where the map keeps the keys.
pub proof fn lemma_place_map<A, B>(
    sorted: Seq<A>,
    x: A,
    f: spec_fn(A) -> B,
    key: spec_fn(A) -> int,
    mapped_key: spec_fn(B) -> int,
)
    requires
        forall|k: int| 0 <= k < sorted.len() ==> mapped_key(f(#[trigger] sorted[k])) == key(sorted[k]),
        mapped_key(f(x)) == key(x),
    ensures
        place(sorted.map_values(f), f(x), mapped_key) == place(sorted, x, key).map_values(f),
    decreases sorted.len(),
{
    let mapped = sorted.map_values(f);
    if sorted.len() == 0 {
        assert(mapped.push(f(x)) =~= sorted.push(x).map_values(f));
    } else {
        assert(mapped.last() == f(sorted.last()));
        assert(mapped_key(f(sorted[sorted.len() - 1])) == key(sorted[sorted.len() - 1]));
        if key(sorted.last()) <= key(x) {
            assert(mapped.push(f(x)) =~= sorted.push(x).map_values(f));
        } else {
            let init = sorted.drop_last();
            assert forall|k: int| 0 <= k < init.len() implies mapped_key(f(#[trigger] init[k]))
                == key(init[k]) by {
                assert(init[k] == sorted[k]);
            }
            lemma_place_map(init, x, f, key, mapped_key);
            assert(mapped.drop_last() =~= init.map_values(f));
            assert(place(init, x, key).map_values(f).push(f(sorted.last())) =~= place(
                init,
                x,
                key,
            ).push(sorted.last()).map_values(f));
        }
    }
}

/// Every item of what is ordered is one of the items.
pub proof fn lemma_ordered_member<A>(items: Seq<A>, key: spec_fn(A) -> int, k: int)
    requires
        0 <= k < items.len(),
    ensures
        ordered(items, key).len() == items.len(),
        items.contains(ordered(items, key)[k]),
{
    lemma_ordered_multiset(items, key);
    let o = ordered(items, key);
    o.to_multiset_ensures();
    items.to_multiset_ensures();
    assert(o.contains(o[k]));
    vstd::seq_lib::to_multiset_contains(o, o[k]);
    vstd::seq_lib::to_multiset_contains(items, o[k]);
}

/// Ordering what is mapped is mapping what is ordered, where the map keeps
/// the keys.
pub proof fn lemma_ordered_map<A, B>(
    items: Seq<A>,
    f: spec_fn(A) -> B,
    key: spec_fn(A) -> int,
    mapped_key: spec_fn(B) -> int,
)
    requires
        forall|k: int| 0 <= k < items.len() ==> mapped_key(f(#[trigger] items[k])) == key(items[k]),
    ensures
        ordered(items.map_values(f), mapped_key) == ordered(items, key).map_values(f),
    decreases items.len(),
{
    let mapped = items.map_values(f);
    if items.len() == 0 {
        assert(ordered(mapped, mapped_key) =~= ordered(items, key).map_values(f));
    } else {
        let init = items.drop_last();
        assert forall|k: int| 0 <= k < init.len() implies mapped_key(f(#[trigger] init[k])) == key(
            init[k],
        ) by {
            assert(init[k] == items[k]);
        }
        lemma_ordered_map(init, f, key, mapped_key);
        assert(mapped.drop_last() =~= init.map_values(f));
        assert(mapped.last() == f(items.last()));
        let sorted = ordered(init, key);
        lemma_ordered_multiset(init, key);
        assert forall|k: int| 0 <= k < sorted.len() implies mapped_key(f(#[trigger] sorted[k]))
            == key(sorted[k]) by {
            lemma_ordered_member(init, key, k);
            let t = choose|t: int| 0 <= t < init.len() && init[t] == sorted[k];
            assert(mapped_key(f(init[t])) == key(init[t]));
        }
        assert(mapped_key(f(items[items.len() - 1])) == key(items[items.len() - 1]));
        lemma_place_map(sorted, items.last(), f, key, mapped_key);
    }
}

/// The key of a list of nodes: the sum of its first node.
pub open spec fn first_sum() -> spec_fn(Vec<TreeAttackNode>) -> int {
    |list: Vec<TreeAttackNode>| list@[0].sum()
}

/// Orders the lists at the tree positions from `from` up to `to` by the sums
/// of their first nodes. Lists with one first sum stay in the order they
/// stood in.
pub fn order_lists(tree: &mut Vec<Vec<TreeAttackNode>>, from: usize, to: usize)
    requires
        from <= to <= old(tree).len(),
        forall|j: int| from <= j < to ==> (#[trigger] old(tree)[j]).len() > 0,
    ensures
        final(tree).len() == old(tree).len(),
        final(tree)@.subrange(from as int, to as int) == ordered(
            old(tree)@.subrange(from as int, to as int),
            first_sum(),
        ),
        rising(final(tree)@.subrange(from as int, to as int), first_sum()),
        forall|j: int|
            0 <= j < from || to <= j < old(tree).len() ==> #[trigger] final(tree)[j] == old(
                tree,
            )[j],
{
    let ghost orig = tree@;
    proof {
        lemma_ordered_rising(orig.subrange(from as int, to as int), first_sum());
    }
    let ghost key = first_sum();
    let mut k: usize = from;
    assert(tree@.subrange(from as int, k as int) =~= ordered(
        orig.subrange(from as int, k as int),
        key,
    ));
    while k < to
        invariant
            from <= k <= to <= tree.len(),
            tree.len() == orig.len(),
            key == first_sum(),
            tree@.subrange(from as int, k as int) == ordered(
                orig.subrange(from as int, k as int),
                key,
            ),
            forall|j: int| 0 <= j < from || k <= j < orig.len() ==> #[trigger] tree[j] == orig[j],
            forall|j: int| from <= j < to ==> (#[trigger] orig[j]).len() > 0,
            forall|j: int| from <= j < to ==> (#[trigger] tree[j]).len() > 0,
        decreases to - k,
    {
        let mut j: usize = k;
        while j > from && tree[j - 1][0].get_sum() > tree[k][0].get_sum()
            invariant
                from <= j <= k < to <= tree.len(),
                forall|t: int| from <= t < to ==> (#[trigger] tree[t]).len() > 0,
                forall|t: int| j <= t < k ==> key(#[trigger] tree@[t]) > key(tree@[k as int]),
                key == first_sum(),
            decreases j,
        {
            j = j - 1;
        }
        let ghost before = tree@;
        let ghost sorted = before.subrange(from as int, k as int);
        let ghost x = before[k as int];
        proof {
            assert forall|t: int| j - from <= t < sorted.len() implies key(#[trigger] sorted[t])
                > key(x) by {
                assert(sorted[t] == before[t + from]);
            }
            if j > from {
                assert(sorted[j - from - 1] == before[j - 1]);
            }
            lemma_place_at(sorted, x, key, j - from);
            let longer = orig.subrange(from as int, k + 1);
            assert(longer.drop_last() =~= orig.subrange(from as int, k as int));
            assert(longer.last() == orig[k as int]);
        }
        if j < k {
            let list = tree.remove(k);
            tree.insert(j, list);
        }
        proof {
            let after = tree@;
            assert(after.subrange(from as int, k + 1) =~= sorted.insert(j - from, x));
            assert forall|t: int| 0 <= t < from || k + 1 <= t < orig.len() implies #[trigger] after[t]
                == orig[t] by {
                assert(before[t] == orig[t]);
            }
            assert forall|t: int| from <= t < to implies (#[trigger] after[t]).len() > 0 by {
                if t < j {
                    assert(after[t] == before[t]);
                } else if t == j {
                    assert(after[t] == before[k as int]);
                } else if t <= k {
                    assert(after[t] == before[t - 1]);
                } else {
                    assert(after[t] == before[t]);
                }
            }
        }
        k = k + 1;
    }
}

} // verus!
