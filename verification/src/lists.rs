//! Lists of nodes in the order of their sums.

use crate::merge::share_a_sum;
use crate::tree_attack::TreeAttackNode;
use vstd::prelude::*;
use vstd::seq_lib::{lemma_multiset_commutative, to_multiset_build, to_multiset_contains};

verus! {

/// The sums of a list grow strictly from each node to the next.
pub open spec fn strictly_sorted(list: Seq<TreeAttackNode>) -> bool {
    forall|a: int, b: int| 0 <= a < b < list.len() ==> list[a].sum() < list[b].sum()
}

/// The sums of a list do not fall from a node to the next.
pub open spec fn sorted(list: Seq<TreeAttackNode>) -> bool {
    forall|a: int, b: int| 0 <= a <= b < list.len() ==> list[a].sum() <= list[b].sum()
}

/// Some node of `list` has the sum `sum`.
pub open spec fn has_sum(list: Seq<TreeAttackNode>, sum: int) -> bool {
    exists|i: int| 0 <= i < list.len() && (#[trigger] list[i]).sum() == sum
}

/// A sum that a list has, it still has with one node more.
pub proof fn lemma_has_sum_push(list: Seq<TreeAttackNode>, node: TreeAttackNode, sum: int)
    requires
        has_sum(list, sum) || node.sum() == sum,
    ensures
        has_sum(list.push(node), sum),
{
    let longer = list.push(node);
    if has_sum(list, sum) {
        let i = choose|i: int| 0 <= i < list.len() && (#[trigger] list[i]).sum() == sum;
        assert(longer[i].sum() == sum);
    } else {
        assert(longer[list.len() as int].sum() == sum);
    }
}

/// Two lists that both hold the sum zero share a sum.
pub proof fn lemma_zeros_share(left: Seq<TreeAttackNode>, right: Seq<TreeAttackNode>)
    requires
        has_sum(left, 0),
        has_sum(right, 0),
    ensures
        share_a_sum(left, right),
{
    let pl = choose|i: int| 0 <= i < left.len() && (#[trigger] left[i]).sum() == 0;
    let pr = choose|i: int| 0 <= i < right.len() && (#[trigger] right[i]).sum() == 0;
    assert(left[pl].sum() == right[pr].sum());
}

/// What is reordered holds the same items: each item of `t` is one of `s`.
pub proof fn lemma_permuted_member<A>(s: Seq<A>, t: Seq<A>, k: int)
    requires
        s.to_multiset() == t.to_multiset(),
        0 <= k < t.len(),
    ensures
        s.len() == t.len(),
        s.contains(t[k]),
{
    s.to_multiset_ensures();
    t.to_multiset_ensures();
    assert(t.contains(t[k]));
    to_multiset_contains(t, t[k]);
    to_multiset_contains(s, t[k]);
}

/// One list in the order of the sums, from two lists in that order.
fn merge_sorted(left: &Vec<TreeAttackNode>, right: &Vec<TreeAttackNode>) -> (out: Vec<
    TreeAttackNode,
>)
    requires
        sorted(left@),
        sorted(right@),
    ensures
        sorted(out@),
        out@.to_multiset() == left@.to_multiset().add(right@.to_multiset()),
{
    broadcast use vstd::multiset::group_multiset_axioms;

    let mut out: Vec<TreeAttackNode> = Vec::with_capacity(left.len());
    let mut i: usize = 0;
    let mut j: usize = 0;
    proof {
        let none = Seq::<TreeAttackNode>::empty();
        assert(left@.subrange(0, 0) =~= none);
        assert(right@.subrange(0, 0) =~= none);
        assert(out@ =~= none);
        none.to_multiset_ensures();
        vstd::multiset::lemma_multiset_empty_len(none.to_multiset());
        assert(none.to_multiset() =~= none.to_multiset().add(none.to_multiset()));
    }
    while i < left.len() || j < right.len()
        invariant
            i <= left.len(),
            j <= right.len(),
            sorted(left@),
            sorted(right@),
            sorted(out@),
            out@.to_multiset() == left@.subrange(0, i as int).to_multiset().add(
                right@.subrange(0, j as int).to_multiset(),
            ),
            forall|k: int|
                0 <= k < out.len() && i < left.len() ==> (#[trigger] out[k]).sum() <= left[i as int].sum(),
            forall|k: int|
                0 <= k < out.len() && j < right.len() ==> (#[trigger] out[k]).sum()
                    <= right[j as int].sum(),
        decreases left.len() - i + right.len() - j,
    {
        let ghost before = out@;
        let from_left = j >= right.len() || (i < left.len() && left[i].get_sum()
            <= right[j].get_sum());
        if from_left {
            let node = left[i];
            out.push(node);
            proof {
                to_multiset_build(left@.subrange(0, i as int), node);
                to_multiset_build(before, node);
                assert(left@.subrange(0, i + 1) =~= left@.subrange(0, i as int).push(node));
                assert(out@.to_multiset() =~= left@.subrange(0, i + 1).to_multiset().add(
                    right@.subrange(0, j as int).to_multiset(),
                ));
                assert forall|k: int| 0 <= k < out.len() && i + 1 < left.len() implies (
                #[trigger] out[k]).sum() <= left[i + 1].sum() by {
                    assert(left[i as int].sum() <= left[i + 1].sum());
                }
            }
            i = i + 1;
        } else {
            let node = right[j];
            out.push(node);
            proof {
                to_multiset_build(right@.subrange(0, j as int), node);
                to_multiset_build(before, node);
                assert(right@.subrange(0, j + 1) =~= right@.subrange(0, j as int).push(node));
                assert(out@.to_multiset() =~= left@.subrange(0, i as int).to_multiset().add(
                    right@.subrange(0, j + 1).to_multiset(),
                ));
                assert forall|k: int| 0 <= k < out.len() && j + 1 < right.len() implies (
                #[trigger] out[k]).sum() <= right[j + 1].sum() by {
                    assert(right[j as int].sum() <= right[j + 1].sum());
                }
            }
            j = j + 1;
        }
        proof {
            assert forall|a: int, b: int| 0 <= a <= b < out.len() implies out[a].sum()
                <= out[b].sum() by {
                if b == out.len() - 1 && a < b {
                    assert(out[a] == before[a]);
                } else if a < b {
                    assert(before[a].sum() <= before[b].sum());
                }
            }
        }
    }
    proof {
        assert(left@.subrange(0, left.len() as int) =~= left@);
        assert(right@.subrange(0, right.len() as int) =~= right@);
    }
    out
}

/// The nodes from `from` up to `to`, in the order of their sums.
fn sort_range(nodes: &Vec<TreeAttackNode>, from: usize, to: usize) -> (out: Vec<TreeAttackNode>)
    requires
        from <= to <= nodes.len(),
    ensures
        sorted(out@),
        out@.to_multiset() == nodes@.subrange(from as int, to as int).to_multiset(),
    decreases to - from,
{
    if to - from <= 1 {
        let mut out: Vec<TreeAttackNode> = Vec::new();
        if from < to {
            out.push(nodes[from]);
        }
        assert(out@ =~= nodes@.subrange(from as int, to as int));
        out
    } else {
        let mid = from + (to - from) / 2;
        let left = sort_range(nodes, from, mid);
        let right = sort_range(nodes, mid, to);
        proof {
            lemma_multiset_commutative(
                nodes@.subrange(from as int, mid as int),
                nodes@.subrange(mid as int, to as int),
            );
            assert(nodes@.subrange(from as int, mid as int) + nodes@.subrange(
                mid as int,
                to as int,
            ) =~= nodes@.subrange(from as int, to as int));
        }
        merge_sorted(&left, &right)
    }
}

/// Puts the nodes in the order of their sums: afterwards the list holds the
/// same nodes, each as often as before, and the sums do not fall.
pub fn sort_nodes(nodes: &mut Vec<TreeAttackNode>)
    ensures
        final(nodes)@.to_multiset() == old(nodes)@.to_multiset(),
        sorted(final(nodes)@),
{
    let out = sort_range(nodes, 0, nodes.len());
    assert(nodes@.subrange(0, nodes.len() as int) =~= nodes@);
    *nodes = out;
}

} // verus!
