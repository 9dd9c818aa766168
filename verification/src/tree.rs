//! The size tree as a mathematical value, and what is said of it.

use crate::path::{extends, has_name, is_name};
use vstd::prelude::*;

verus! {

/// A file or a directory with its size: the value that a `Dir` stands for.
pub ghost struct Node {
    pub size: nat,
    pub path: Seq<Seq<char>>,
    pub contents: Option<Seq<Node>>,
    pub is_file: bool,
}

/// The sum of the sizes of `nodes`.
pub open spec fn total_size(nodes: Seq<Node>) -> nat
    decreases nodes.len(),
{
    if nodes.len() == 0 {
        0
    } else {
        total_size(nodes.drop_last()) + nodes.last().size
    }
}

/// Whether a node is larger than `size_min`, as a function of the node.
pub open spec fn larger_than(size_min: nat) -> spec_fn(Node) -> bool {
    |node: Node| node.size > size_min
}

/// The index of the first of `nodes` whose path starts `target`, or the
/// length of `nodes` if there is none.
pub open spec fn first_on_the_way(nodes: Seq<Node>, target: Seq<Seq<char>>) -> int
    decreases nodes.len(),
{
    if nodes.len() == 0 {
        0
    } else if nodes[0].path.is_prefix_of(target) {
        0
    } else {
        1 + first_on_the_way(nodes.drop_first(), target)
    }
}

impl Node {
    /// The number of children; 0 for a leaf.
    pub open spec fn len(self) -> nat {
        match self.contents {
            Some(children) => children.len(),
            None => 0,
        }
    }

    /// Every directory of the tree is as large as its children together.
    pub open spec fn aggregated(self) -> bool
        decreases self,
    {
        match self.contents {
            None => true,
            Some(children) => {
                &&& self.size == total_size(children)
                &&& forall|i: int| 0 <= i < children.len() ==> (#[trigger] children[i]).aggregated()
            },
        }
    }

    /// Every child's path is its parent's path and one more component, which
    /// is a name, and no two children of one directory have the same path.
    pub open spec fn nested(self) -> bool
        decreases self,
    {
        match self.contents {
            None => true,
            Some(children) => {
                &&& forall|i: int|
                    0 <= i < children.len() ==> extends((#[trigger] children[i]).path, self.path)
                &&& forall|i: int|
                    0 <= i < children.len() ==> is_name((#[trigger] children[i]).path.last())
                &&& forall|i: int, j: int|
                    0 <= i < j < children.len() ==> (#[trigger] children[i]).path
                        != (#[trigger] children[j]).path
                &&& forall|i: int| 0 <= i < children.len() ==> (#[trigger] children[i]).nested()
            },
        }
    }

    /// No file of the tree has children.
    pub open spec fn files_are_leaves(self) -> bool
        decreases self,
    {
        match self.contents {
            None => true,
            Some(children) => {
                &&& !self.is_file
                &&& forall|i: int|
                    0 <= i < children.len() ==> (#[trigger] children[i]).files_are_leaves()
            },
        }
    }

    /// The tree is one that a scan gives: sizes add up, paths nest, files are leaves.
    pub open spec fn well_formed(self) -> bool {
        self.aggregated() && self.nested() && self.files_are_leaves()
    }

    /// The children larger than `size_min`, in their order; none for a leaf and
    /// for a directory without such a child.
    pub open spec fn filter_size(self, size_min: nat) -> Option<Seq<Node>> {
        match self.contents {
            None => None,
            Some(children) => {
                let kept = children.filter(larger_than(size_min));
                if kept.len() == 0 {
                    None
                } else {
                    Some(kept)
                }
            },
        }
    }

    /// The node whose path is `target` without its last component, looked for
    /// from `self` down through the first child whose path starts `target`.
    /// `self` where `target` has no parent or no child is on the way; none where
    /// the way leads into a leaf.
    pub open spec fn find(self, target: Seq<Seq<char>>) -> Option<Node>
        decreases self,
    {
        if target.len() == 0 || self.path == target.drop_last() {
            Some(self)
        } else {
            match self.contents {
                None => None,
                Some(children) => {
                    let i = first_on_the_way(children, target);
                    if 0 <= i < children.len() {
                        children[i].find(target)
                    } else {
                        Some(self)
                    }
                },
            }
        }
    }
}

/// Whether `child` is one of the children of `parent`.
pub open spec fn is_child_of(child: Node, parent: Node) -> bool {
    parent.contents matches Some(children) && children.contains(child)
}

/// Whether `chain` leads down from `root`: it starts with `root`, and each
/// node after that is a child of the one before it.
pub open spec fn is_lineage(root: Node, chain: Seq<Node>) -> bool {
    &&& chain.len() > 0
    &&& chain[0] == root
    &&& forall|k: int| 1 <= k < chain.len() ==> is_child_of(#[trigger] chain[k], chain[k - 1])
}

/// The indices of those of `nodes` that are larger than `size_min`, in ascending order.
pub open spec fn positions_above(nodes: Seq<Node>, size_min: nat) -> Seq<int>
    decreases nodes.len(),
{
    if nodes.len() == 0 {
        Seq::empty()
    } else if nodes.last().size > size_min {
        positions_above(nodes.drop_last(), size_min).push(nodes.len() - 1)
    } else {
        positions_above(nodes.drop_last(), size_min)
    }
}

/// Filtering keeps the nodes larger than `size_min`, all of them and no
/// other, in the order in which they stand.
pub proof fn lemma_filter_keeps_order(nodes: Seq<Node>, size_min: nat)
    ensures
        nodes.filter(larger_than(size_min)).len() == positions_above(nodes, size_min).len(),
        forall|k: int|
            0 <= k < positions_above(nodes, size_min).len() ==> {
                let at = #[trigger] positions_above(nodes, size_min)[k];
                &&& 0 <= at < nodes.len()
                &&& nodes[at].size > size_min
                &&& nodes.filter(larger_than(size_min))[k] == nodes[at]
            },
        forall|k: int, l: int|
            0 <= k < l < positions_above(nodes, size_min).len() ==> positions_above(
                nodes,
                size_min,
            )[k] < positions_above(nodes, size_min)[l],
        forall|i: int|
            0 <= i < nodes.len() && (#[trigger] nodes[i]).size > size_min ==> positions_above(
                nodes,
                size_min,
            ).contains(i),
    decreases nodes.len(),
{
    reveal(Seq::filter);
    if nodes.len() > 0 {
        let front = nodes.drop_last();
        let last = nodes.len() - 1;
        let positions = positions_above(nodes, size_min);
        let before = positions_above(front, size_min);
        lemma_filter_keeps_order(front, size_min);
        assert forall|i: int| 0 <= i < nodes.len() && (#[trigger] nodes[i]).size
            > size_min implies positions.contains(i) by {
            if i < last {
                assert(front[i].size > size_min);
                let k = choose|k: int| 0 <= k < before.len() && before[k] == i;
                assert(positions[k] == i);
            } else {
                assert(positions[positions.len() - 1] == i);
            }
        }
    }
}

/// What is kept of a node's children: nothing of a leaf, and nothing where
/// no child is larger than `size_min`; else the children that are larger,
/// in their order.
pub proof fn lemma_filter_size(node: Node, size_min: nat)
    ensures
        node.contents is None ==> node.filter_size(size_min) is None,
        node.contents matches Some(children) ==> (node.filter_size(size_min) is None <==> forall|
            i: int,
        |
            0 <= i < children.len() ==> (#[trigger] children[i]).size <= size_min),
        node.filter_size(size_min) matches Some(kept) ==> {
            &&& kept.len() > 0
            &&& kept == node.contents->0.filter(larger_than(size_min))
            &&& forall|k: int| 0 <= k < kept.len() ==> (#[trigger] kept[k]).size > size_min
            &&& forall|k: int| 0 <= k < kept.len() ==> is_child_of(#[trigger] kept[k], node)
        },
{
    if let Some(children) = node.contents {
        let kept = children.filter(larger_than(size_min));
        lemma_filter_keeps_order(children, size_min);
        let positions = positions_above(children, size_min);
        assert forall|k: int| 0 <= k < kept.len() implies (#[trigger] kept[k]).size > size_min
            && is_child_of(kept[k], node) by {
            assert(kept[k] == children[positions[k]]);
        }
        if kept.len() == 0 {
            assert forall|i: int| 0 <= i < children.len() implies (#[trigger] children[i]).size
                <= size_min by {
                if children[i].size > size_min {
                    assert(positions.contains(i));
                }
            }
        } else {
            assert(children[positions[0]].size > size_min);
        }
    }
}

/// The first of `nodes` whose path starts `target` is the one at `i`, where
/// none before it does; it is none, where `i` is the length of `nodes`.
pub proof fn lemma_first_on_the_way(nodes: Seq<Node>, target: Seq<Seq<char>>, i: int)
    requires
        0 <= i <= nodes.len(),
        forall|j: int| 0 <= j < i ==> !(#[trigger] nodes[j]).path.is_prefix_of(target),
        i < nodes.len() ==> nodes[i].path.is_prefix_of(target),
    ensures
        first_on_the_way(nodes, target) == i,
    decreases nodes.len(),
{
    if nodes.len() > 0 && i > 0 {
        assert(!nodes[0].path.is_prefix_of(target));
        let rest = nodes.drop_first();
        assert forall|j: int| 0 <= j < i - 1 implies !(#[trigger] rest[j]).path.is_prefix_of(
            target,
        ) by {
            assert(rest[j] == nodes[j + 1]);
        }
        lemma_first_on_the_way(rest, target, i - 1);
    }
}

/// In a tree whose paths nest, the path of a node `k` steps down a lineage
/// is the root's path and `k` more components, and the paths below it nest.
pub proof fn lemma_lineage_paths(root: Node, chain: Seq<Node>, k: int)
    requires
        root.nested(),
        is_lineage(root, chain),
        0 <= k < chain.len(),
    ensures
        chain[k].nested(),
        root.path.is_prefix_of(chain[k].path),
        chain[k].path.len() == root.path.len() + k,
        k > 0 ==> has_name(chain[k].path),
    decreases k,
{
    if k > 0 {
        lemma_lineage_paths(root, chain, k - 1);
        let parent = chain[k - 1];
        let child = chain[k];
        assert(is_child_of(child, parent));
        let children = parent.contents->0;
        let i = choose|i: int| 0 <= i < children.len() && children[i] == child;
        assert(extends(children[i].path, parent.path));
        assert(is_name(children[i].path.last()));
        assert(children[i].nested());
        assert(root.path =~= child.path.subrange(0, root.path.len() as int)) by {
            assert(root.path =~= parent.path.subrange(0, root.path.len() as int));
            assert(parent.path == child.path.drop_last());
        }
    }
}

/// In a tree whose paths nest, looking from the root for the path of a node
/// finds the node above it on any lineage that leads to it.
pub proof fn lemma_find_parent(root: Node, chain: Seq<Node>)
    requires
        root.nested(),
        is_lineage(root, chain),
        chain.len() >= 2,
    ensures
        root.find(chain.last().path) == Some(chain[chain.len() - 2]),
    decreases chain.len(),
{
    let target = chain.last().path;
    let last = chain.len() - 1;
    lemma_lineage_paths(root, chain, last);
    let children = root.contents->0;
    assert(is_child_of(chain[1], root));
    let k = choose|k: int| 0 <= k < children.len() && children[k] == chain[1];
    if chain.len() == 2 {
        assert(extends(children[k].path, root.path));
    } else {
        let below = chain.drop_first();
        assert(is_lineage(chain[1], below)) by {
            assert forall|j: int| 1 <= j < below.len() implies is_child_of(
                #[trigger] below[j],
                below[j - 1],
            ) by {
                assert(is_child_of(chain[j + 1], chain[j]));
            }
        }
        assert(children[k].nested());
        lemma_lineage_paths(chain[1], below, last - 1);
        assert(below.last() == chain.last());
        assert(target.drop_last().len() != root.path.len());
        assert forall|j: int| 0 <= j < k implies !(#[trigger] children[j]).path.is_prefix_of(
            target,
        ) by {
            assert(extends(children[j].path, root.path));
            assert(extends(children[k].path, root.path));
            if children[j].path.is_prefix_of(target) {
                assert(children[j].path =~= children[k].path);
            }
        }
        lemma_first_on_the_way(children, target, k);
        lemma_find_parent(chain[1], below);
    }
}

/// In a tree whose paths nest, looking from a directory for its own path
/// finds that directory.
pub proof fn lemma_find_self(root: Node)
    requires
        root.nested(),
        root.contents is Some,
    ensures
        root.find(root.path) == Some(root),
{
    let children = root.contents->0;
    if root.path.len() > 0 {
        assert(root.path.drop_last().len() != root.path.len());
        assert forall|j: int| 0 <= j < children.len() implies !(#[trigger] children[j])
            .path.is_prefix_of(root.path) by {
            assert(extends(children[j].path, root.path));
        }
        lemma_first_on_the_way(children, root.path, children.len() as int);
    }
}

/// One more node adds its size to the sum.
pub proof fn lemma_total_size_of_pushed(nodes: Seq<Node>, node: Node)
    ensures
        total_size(nodes.push(node)) == total_size(nodes) + node.size,
{
    assert(nodes.push(node).drop_last() =~= nodes);
}

/// The first of some nodes are no larger together than all of them.
pub proof fn lemma_total_size_grows(nodes: Seq<Node>, count: int)
    requires
        0 <= count <= nodes.len(),
    ensures
        total_size(nodes.take(count)) <= total_size(nodes),
    decreases nodes.len(),
{
    if count < nodes.len() {
        lemma_total_size_grows(nodes.drop_last(), count);
        assert(nodes.drop_last().take(count) =~= nodes.take(count));
    } else {
        assert(nodes.take(count) =~= nodes);
    }
}

} // verus!
