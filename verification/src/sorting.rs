//! Ordering nodes by size, largest first, equal sizes in their old order.

use crate::path::extends;
use crate::structs::{nodes_of, Dir};
use crate::tree::{total_size, Node};
use vstd::prelude::*;

verus! {

/// `sorted` with `node` put in behind every node that is at least as large.
pub open spec fn insert_by_size(sorted: Seq<Node>, node: Node) -> Seq<Node>
    decreases sorted.len(),
{
    if sorted.len() == 0 || sorted.last().size >= node.size {
        sorted.push(node)
    } else {
        insert_by_size(sorted.drop_last(), node).push(sorted.last())
    }
}

/// `nodes` by size, largest first; nodes of one size keep their order.
pub open spec fn sorted_by_size(nodes: Seq<Node>) -> Seq<Node>
    decreases nodes.len(),
{
    if nodes.len() == 0 {
        nodes
    } else {
        insert_by_size(sorted_by_size(nodes.drop_last()), nodes.last())
    }
}

/// `left` and `right` in one sequence, the smaller of the two last nodes last;
/// of two equal ones, that of `right`.
pub open spec fn merged(left: Seq<Node>, right: Seq<Node>) -> Seq<Node>
    decreases left.len() + right.len(),
{
    if right.len() == 0 {
        left
    } else if left.len() == 0 {
        right
    } else if left.last().size >= right.last().size {
        merged(left, right.drop_last()).push(right.last())
    } else {
        merged(left.drop_last(), right).push(left.last())
    }
}

/// `node` with the children of every directory in it sorted by size.
pub open spec fn sorted_tree(node: Node) -> Node
    decreases node,
{
    Node {
        size: node.size,
        path: node.path,
        contents: match node.contents {
            Some(children) => Some(sorted_by_size(each_sorted(children))),
            None => None,
        },
        is_file: node.is_file,
    }
}

/// `nodes` in their order, each sorted within.
pub open spec fn each_sorted(nodes: Seq<Node>) -> Seq<Node>
    decreases nodes,
{
    Seq::new(
        nodes.len(),
        |i: int|
            if 0 <= i < nodes.len() {
                sorted_tree(nodes[i])
            } else {
                arbitrary()
            },
    )
}

/// Whether the sizes of `nodes` never grow from one node to the next.
pub open spec fn descending(nodes: Seq<Node>) -> bool {
    forall|i: int, j: int| 0 <= i <= j < nodes.len() ==> nodes[i].size >= nodes[j].size
}

/// Whether a node has the size `size`, as a function of the node.
pub open spec fn of_size(size: nat) -> spec_fn(Node) -> bool {
    |node: Node| node.size == size
}

proof fn lemma_merged_with_one(left: Seq<Node>, node: Node)
    ensures
        merged(left, seq![node]) == insert_by_size(left, node),
    decreases left.len(),
{
    let one = seq![node];
    assert(one.drop_last() =~= Seq::<Node>::empty());
    assert(one.last() == node);
    if left.len() == 0 {
        assert(left.push(node) =~= one);
    } else if left.last().size >= node.size {
        assert(merged(left, one.drop_last()) == left);
    } else {
        lemma_merged_with_one(left.drop_last(), node);
    }
}

proof fn lemma_insert_into_merged(left: Seq<Node>, right: Seq<Node>, node: Node)
    ensures
        insert_by_size(merged(left, right), node) == merged(left, insert_by_size(right, node)),
    decreases left.len() + right.len(),
{
    if right.len() == 0 {
        lemma_merged_with_one(left, node);
        assert(right.push(node) =~= seq![node]);
    } else if left.len() == 0 {
        assert(insert_by_size(right, node).len() > 0);
    } else {
        let a = left.last();
        let b = right.last();
        if b.size >= node.size {
            let pushed = right.push(node);
            assert(pushed.drop_last() =~= right);
            assert(pushed.last() == node);
            if a.size >= node.size {
                assert(merged(left, pushed) == merged(left, right).push(node));
                assert(merged(left, right).last().size >= node.size);
                    } else {
                lemma_insert_into_merged(left.drop_last(), right, node);
                let m = merged(left.drop_last(), right);
                assert(m.push(a).drop_last() =~= m);
                assert(merged(left, right) == m.push(a));
                    }
        } else {
            let inner = insert_by_size(right.drop_last(), node);
            let put = inner.push(b);
            assert(put.drop_last() =~= inner);
            assert(put.last() == b);
            if a.size >= b.size {
                lemma_insert_into_merged(left, right.drop_last(), node);
                let m = merged(left, right.drop_last());
                assert(m.push(b).drop_last() =~= m);
                    } else {
                lemma_insert_into_merged(left.drop_last(), right, node);
                let m = merged(left.drop_last(), right);
                assert(m.push(a).drop_last() =~= m);
                    }
        }
    }
}

/// Sorting two sequences and merging them sorts the two in a row.
pub proof fn lemma_sorted_in_halves(left: Seq<Node>, right: Seq<Node>)
    ensures
        sorted_by_size(left + right) == merged(sorted_by_size(left), sorted_by_size(right)),
    decreases right.len(),
{
    if right.len() == 0 {
        assert(left + right =~= left);
    } else {
        let whole = left + right;
        assert(whole.drop_last() =~= left + right.drop_last());
        assert(whole.last() == right.last());
        lemma_sorted_in_halves(left, right.drop_last());
        lemma_insert_into_merged(
            sorted_by_size(left),
            sorted_by_size(right.drop_last()),
            right.last(),
        );
    }
}

/// Whether the children of every directory of `node` are in descending order of size.
pub open spec fn ordered(node: Node) -> bool
    decreases node,
{
    match node.contents {
        None => true,
        Some(children) => {
            &&& descending(children)
            &&& forall|i: int| 0 <= i < children.len() ==> ordered(#[trigger] children[i])
        },
    }
}

/// Putting a node in keeps a descending order, adds that node and no other,
/// and keeps the order of nodes of equal size, with the new node as the last of its size.
pub proof fn lemma_insert_by_size(sorted: Seq<Node>, node: Node)
    ensures
        insert_by_size(sorted, node).len() == sorted.len() + 1,
        insert_by_size(sorted, node).to_multiset() == sorted.to_multiset().insert(node),
        descending(sorted) ==> descending(insert_by_size(sorted, node)),
        total_size(insert_by_size(sorted, node)) == total_size(sorted) + node.size,
        forall|size: nat| #[trigger]
            insert_by_size(sorted, node).filter(of_size(size)) == if node.size == size {
                sorted.filter(of_size(size)).push(node)
            } else {
                sorted.filter(of_size(size))
            },
    decreases sorted.len(),
{
    broadcast use vstd::seq_lib::group_to_multiset_ensures;

    let put = insert_by_size(sorted, node);
    if sorted.len() == 0 || sorted.last().size >= node.size {
        assert(put.drop_last() =~= sorted);
        assert forall|size: nat| #[trigger]
            put.filter(of_size(size)) == if node.size == size {
                sorted.filter(of_size(size)).push(node)
            } else {
                sorted.filter(of_size(size))
            } by {
            sorted.lemma_filter_push(node, of_size(size));
        }
    } else {
        let front = sorted.drop_last();
        let last = sorted.last();
        let inner = insert_by_size(front, node);
        lemma_insert_by_size(front, node);
        assert(sorted =~= front.push(last));
        assert(put.drop_last() =~= inner);
        assert(put.to_multiset() =~= sorted.to_multiset().insert(node));
        if descending(sorted) {
            assert(descending(front));
            assert forall|i: int, j: int| 0 <= i <= j < put.len() implies put[i].size
                >= put[j].size by {
                if j == put.len() - 1 && i < j {
                    assert(inner.to_multiset().count(inner[i]) > 0);
                    if inner[i] != node {
                        assert(front.contains(inner[i]));
                        let k = choose|k: int| 0 <= k < front.len() && front[k] == inner[i];
                        assert(sorted[k].size >= sorted[sorted.len() - 1].size);
                    }
                }
            }
        }
        assert forall|size: nat| #[trigger]
            put.filter(of_size(size)) == if node.size == size {
                sorted.filter(of_size(size)).push(node)
            } else {
                sorted.filter(of_size(size))
            } by {
            inner.lemma_filter_push(last, of_size(size));
            front.lemma_filter_push(last, of_size(size));
            assert(inner.filter(of_size(size)) == if node.size == size {
                front.filter(of_size(size)).push(node)
            } else {
                front.filter(of_size(size))
            });
        }
    }
}

/// Sorting by size gives a descending order of the same nodes, in which
/// nodes of equal size stand in the order that they had.
pub proof fn lemma_sorted_by_size(nodes: Seq<Node>)
    ensures
        descending(sorted_by_size(nodes)),
        sorted_by_size(nodes).len() == nodes.len(),
        sorted_by_size(nodes).to_multiset() == nodes.to_multiset(),
        total_size(sorted_by_size(nodes)) == total_size(nodes),
        forall|size: nat| #[trigger]
            sorted_by_size(nodes).filter(of_size(size)) == nodes.filter(of_size(size)),
    decreases nodes.len(),
{
    broadcast use vstd::seq_lib::group_to_multiset_ensures;

    if nodes.len() > 0 {
        let front = nodes.drop_last();
        lemma_sorted_by_size(front);
        lemma_insert_by_size(sorted_by_size(front), nodes.last());
        assert(nodes =~= front.push(nodes.last()));
        assert forall|size: nat| #[trigger]
            sorted_by_size(nodes).filter(of_size(size)) == nodes.filter(of_size(size)) by {
            front.lemma_filter_push(nodes.last(), of_size(size));
            assert(sorted_by_size(front).filter(of_size(size)) == front.filter(of_size(size)));
        }
    }
}

/// Sorting by size changes nothing in a descending order.
pub proof fn lemma_sorted_is_fixed(nodes: Seq<Node>)
    requires
        descending(nodes),
    ensures
        sorted_by_size(nodes) == nodes,
    decreases nodes.len(),
{
    if nodes.len() > 0 {
        let front = nodes.drop_last();
        lemma_sorted_is_fixed(front);
        if front.len() > 0 {
            assert(nodes[front.len() - 1].size >= nodes[nodes.len() - 1].size);
        }
        assert(front.push(nodes.last()) =~= nodes);
    }
}

/// Each node of a sorted sequence is one of the nodes that were sorted, and
/// the other way round.
pub proof fn lemma_sorted_same_nodes(nodes: Seq<Node>)
    ensures
        forall|i: int|
            0 <= i < nodes.len() ==> nodes.contains(#[trigger] sorted_by_size(nodes)[i]),
        forall|i: int|
            0 <= i < nodes.len() ==> sorted_by_size(nodes).contains(#[trigger] nodes[i]),
{
    broadcast use vstd::seq_lib::group_to_multiset_ensures;

    lemma_sorted_by_size(nodes);
    let sorted = sorted_by_size(nodes);
    assert forall|i: int| 0 <= i < nodes.len() implies nodes.contains(#[trigger] sorted[i]) by {
        assert(sorted.contains(sorted[i]));
        assert(sorted.to_multiset().count(sorted[i]) > 0);
    }
    assert forall|i: int| 0 <= i < nodes.len() implies sorted.contains(#[trigger] nodes[i]) by {
        assert(nodes.contains(nodes[i]));
        assert(nodes.to_multiset().count(nodes[i]) > 0);
    }
}

proof fn lemma_total_size_by_sizes(left: Seq<Node>, right: Seq<Node>)
    requires
        left.len() == right.len(),
        forall|i: int| 0 <= i < left.len() ==> (#[trigger] left[i]).size == right[i].size,
    ensures
        total_size(left) == total_size(right),
    decreases left.len(),
{
    if left.len() > 0 {
        lemma_total_size_by_sizes(left.drop_last(), right.drop_last());
    }
}

/// Sorting a tree leaves the children of every directory in descending order
/// of size, and leaves a tree well formed: sizes still add up, paths still
/// nest, files are still leaves.
pub proof fn lemma_sorted_tree(node: Node)
    ensures
        ordered(sorted_tree(node)),
        node.aggregated() ==> sorted_tree(node).aggregated(),
        node.nested() ==> sorted_tree(node).nested(),
        node.files_are_leaves() ==> sorted_tree(node).files_are_leaves(),
        node.well_formed() ==> sorted_tree(node).well_formed(),
    decreases node,
{
    if let Some(children) = node.contents {
        let each = each_sorted(children);
        let sorted = sorted_by_size(each);
        assert forall|j: int| 0 <= j < children.len() implies {
            &&& ordered(#[trigger] each[j])
            &&& children[j].aggregated() ==> each[j].aggregated()
            &&& children[j].nested() ==> each[j].nested()
            &&& children[j].files_are_leaves() ==> each[j].files_are_leaves()
        } by {
            lemma_sorted_tree(children[j]);
        }
        lemma_sorted_by_size(each);
        lemma_sorted_same_nodes(each);
        lemma_total_size_by_sizes(each, children);
        assert forall|i: int| 0 <= i < sorted.len() implies {
            &&& ordered(#[trigger] sorted[i])
            &&& node.aggregated() ==> sorted[i].aggregated()
            &&& node.nested() ==> sorted[i].nested() && extends(sorted[i].path, node.path)
            &&& node.files_are_leaves() ==> sorted[i].files_are_leaves()
        } by {
            let j = choose|j: int| 0 <= j < each.len() && each[j] == sorted[i];
            assert(ordered(each[j]));
            assert(each[j].path == children[j].path);
        }
        if node.nested() {
            assert(each.no_duplicates()) by {
                assert forall|a: int, b: int|
                    0 <= a < each.len() && 0 <= b < each.len() && a != b implies each[a]
                    != each[b] by {
                    if a < b {
                        assert(children[a].path != children[b].path);
                    } else {
                        assert(children[b].path != children[a].path);
                    }
                }
            }
            each.lemma_multiset_has_no_duplicates();
            sorted.lemma_multiset_has_no_duplicates_conv();
            assert forall|a: int, b: int| 0 <= a < b < sorted.len() implies (#[trigger] sorted[a])
                .path != (#[trigger] sorted[b]).path by {
                let ja = choose|j: int| 0 <= j < each.len() && each[j] == sorted[a];
                let jb = choose|j: int| 0 <= j < each.len() && each[j] == sorted[b];
                assert(sorted[a] != sorted[b]);
                if ja < jb {
                    assert(children[ja].path != children[jb].path);
                } else {
                    assert(children[jb].path != children[ja].path);
                }
            }
        }
    }
}

/// Sorting changes nothing in a tree in which the children of every
/// directory are in descending order of size.
pub proof fn lemma_ordered_is_fixed(node: Node)
    requires
        ordered(node),
    ensures
        sorted_tree(node) == node,
    decreases node,
{
    if let Some(children) = node.contents {
        assert forall|j: int| 0 <= j < children.len() implies each_sorted(children)[j]
            == children[j] by {
            lemma_ordered_is_fixed(children[j]);
        }
        assert(each_sorted(children) =~= children);
        lemma_sorted_is_fixed(children);
    }
}

/// Sorting a sorted tree changes nothing.
pub proof fn lemma_sorted_twice(node: Node)
    ensures
        sorted_tree(sorted_tree(node)) == sorted_tree(node),
{
    lemma_sorted_tree(node);
    lemma_ordered_is_fixed(sorted_tree(node));
}

/// `left` and `right`, each sorted, in one sorted vector.
fn merge(left: Vec<Dir>, right: Vec<Dir>) -> (out: Vec<Dir>)
    ensures
        nodes_of(out@) == merged(nodes_of(left@), nodes_of(right@)),
{
    let ghost whole = merged(nodes_of(left@), nodes_of(right@));
    let mut left = left;
    let mut right = right;
    // The end of the result, last node first.
    let mut tail: Vec<Dir> = Vec::new();
    assert(nodes_of(tail@).reverse() =~= Seq::<Node>::empty());
    assert(whole + Seq::<Node>::empty() =~= whole);
    while left.len() > 0 && right.len() > 0
        invariant
            whole == merged(nodes_of(left@), nodes_of(right@)) + nodes_of(tail@).reverse(),
        decreases left.len() + right.len(),
    {
        let ghost l = nodes_of(left@);
        let ghost r = nodes_of(right@);
        let ghost t = nodes_of(tail@);
        assert(l.last() == left@.last()@);
        assert(r.last() == right@.last()@);
        if left[left.len() - 1].size >= right[right.len() - 1].size {
            let last = right.pop().unwrap();
            tail.push(last);
            assert(nodes_of(right@) =~= r.drop_last());
            assert(nodes_of(tail@) =~= t.push(r.last()));
            assert(merged(l, r.drop_last()).push(r.last()) + t.reverse() =~= merged(
                l,
                r.drop_last(),
            ) + t.push(r.last()).reverse());
        } else {
            let last = left.pop().unwrap();
            tail.push(last);
            assert(nodes_of(left@) =~= l.drop_last());
            assert(nodes_of(tail@) =~= t.push(l.last()));
            assert(merged(l.drop_last(), r).push(l.last()) + t.reverse() =~= merged(
                l.drop_last(),
                r,
            ) + t.push(l.last()).reverse());
        }
    }
    let mut out = if left.len() > 0 {
        left
    } else {
        right
    };
    while tail.len() > 0
        invariant
            whole == nodes_of(out@) + nodes_of(tail@).reverse(),
        decreases tail.len(),
    {
        let ghost o = nodes_of(out@);
        let ghost t = nodes_of(tail@);
        let next = tail.pop().unwrap();
        out.push(next);
        assert(nodes_of(tail@) =~= t.drop_last());
        assert(nodes_of(out@) =~= o.push(t.last()));
        assert(o + t.reverse() =~= o.push(t.last()) + t.drop_last().reverse());
    }
    assert(nodes_of(out@) + nodes_of(tail@).reverse() =~= nodes_of(out@));
    out
}

/// `dirs` by size, largest first; those of one size keep their order.
pub fn sort_dirs(dirs: Vec<Dir>) -> (sorted: Vec<Dir>)
    ensures
        nodes_of(sorted@) == sorted_by_size(nodes_of(dirs@)),
    decreases dirs@.len(),
{
    if dirs.len() <= 1 {
        proof {
            let nodes = nodes_of(dirs@);
            if nodes.len() == 1 {
                assert(sorted_by_size(nodes.drop_last()) =~= Seq::<Node>::empty());
                assert(Seq::<Node>::empty().push(nodes.last()) =~= nodes);
            }
        }
        return dirs;
    }
    let ghost all = nodes_of(dirs@);
    let mut left = dirs;
    let right = left.split_off(left.len() / 2);
    proof {
        assert(all =~= nodes_of(left@) + nodes_of(right@));
        lemma_sorted_in_halves(nodes_of(left@), nodes_of(right@));
    }
    let left = sort_dirs(left);
    let right = sort_dirs(right);
    merge(left, right)
}

} // verus!
