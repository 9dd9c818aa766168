//! What a scan gives, said of the file system as a whole.

use crate::path::{extends, is_name};
use crate::scanning::Probe;
use crate::traversal::{
    advance, deliver, directory, leaf_of, unreadable, EntryView, FrameState, ScanState,
};
use crate::tree::Node;
use vstd::prelude::*;

verus! {

/// What the file system holds at one entry of a directory.
///
/// - `entry`: what the listing of the directory says of it
/// - `below`: for a directory, its own listing; none where it cannot be read
pub ghost struct Found {
    pub entry: EntryView,
    pub below: Option<Seq<Found>>,
}

/// The listing of a directory that holds `items`.
pub open spec fn entries_of(items: Seq<Found>) -> Seq<EntryView> {
    Seq::new(items.len(), |i: int| items[i].entry)
}

/// The tree of the directory at `path` with the listing `below`.
pub open spec fn tree_of(path: Seq<Seq<char>>, below: Option<Seq<Found>>) -> Node
    decreases below, 0nat,
{
    match below {
        None => unreadable(path),
        Some(items) => directory(path, children_of(path, items, items.len())),
    }
}

/// The children that the first `count` of `items` give to the directory at
/// `path`: a tree for a directory, a leaf for a file whose metadata could be
/// read, nothing for another entry.
pub open spec fn children_of(path: Seq<Seq<char>>, items: Seq<Found>, count: nat) -> Seq<Node>
    decreases items, count,
{
    if count == 0 || count > items.len() {
        Seq::empty()
    } else {
        let before = children_of(path, items, (count - 1) as nat);
        let item = items[count - 1];
        match item.entry.probe {
            Probe::Directory => before.push(tree_of(path.push(item.entry.name), item.below)),
            Probe::File { size, is_file } => before.push(leaf_of(path, item.entry)->0),
            _ => before,
        }
    }
}

/// The scan after the question in `state` was answered with the listing
/// `below`, and each question that followed from it with the listing of the
/// directory asked for.
pub open spec fn answered(state: ScanState, below: Option<Seq<Found>>) -> ScanState
    decreases below, 0nat,
{
    match below {
        None => state.answer(None),
        Some(items) => answered_from(state.answer(Some(entries_of(items))), items, 0),
    }
}

/// The scan after the questions for the directories among `items`, from the
/// one at `index` on, were answered as `answered` says.
pub open spec fn answered_from(state: ScanState, items: Seq<Found>, index: nat) -> ScanState
    decreases items, items.len() - index,
{
    if index >= items.len() {
        state
    } else if items[index as int].entry.probe is Directory {
        answered_from(answered(state, items[index as int].below), items, index + 1)
    } else {
        answered_from(state, items, index + 1)
    }
}

/// Whether every entry has a name and no two entries of one directory have
/// the same one, in `below` and in every directory under it.
pub open spec fn well_named(below: Option<Seq<Found>>) -> bool
    decreases below,
{
    match below {
        None => true,
        Some(items) => {
            &&& forall|i: int| 0 <= i < items.len() ==> is_name((#[trigger] items[i]).entry.name)
            &&& forall|i: int, j: int|
                0 <= i < j < items.len() ==> (#[trigger] items[i]).entry.name
                    != (#[trigger] items[j]).entry.name
            &&& forall|i: int| 0 <= i < items.len() ==> well_named((#[trigger] items[i]).below)
        },
    }
}

/// The frame of the directory at `path` that holds `items`, the first
/// `index` of them gone through.
spec fn frame_at(path: Seq<Seq<char>>, items: Seq<Found>, index: nat) -> FrameState {
    FrameState {
        path,
        entries: entries_of(items),
        next: index,
        done: children_of(path, items, index),
    }
}

proof fn lemma_answered_from(
    frames: Seq<FrameState>,
    path: Seq<Seq<char>>,
    items: Seq<Found>,
    index: nat,
)
    requires
        index <= items.len(),
    ensures
        answered_from(advance(frames.push(frame_at(path, items, index))), items, index) == deliver(
            frames,
            tree_of(path, Some(items)),
        ),
    decreases items, items.len() - index,
{
    let frame = frame_at(path, items, index);
    let stack = frames.push(frame);
    assert(stack.drop_last() =~= frames);
    assert(stack.last() == frame);
    if index < items.len() {
        let item = items[index as int];
        let next = frame_at(path, items, index + 1);
        assert(frame.entries[index as int] == item.entry);
        match item.entry.probe {
            Probe::Directory => {
                let waiting = frames.push(frame.skipped());
                let subtree = tree_of(path.push(item.entry.name), item.below);
                lemma_scan_gives_tree(waiting, path.push(item.entry.name), item.below);
                assert(waiting.drop_last() =~= frames);
                assert(waiting.last().with(subtree) == next);
                lemma_answered_from(frames, path, items, index + 1);
            },
            Probe::File { size, is_file } => {
                assert(frame.skipped().with(leaf_of(path, item.entry)->0) == next);
                lemma_answered_from(frames, path, items, index + 1);
            },
            _ => {
                assert(frame.skipped() == next);
                lemma_answered_from(frames, path, items, index + 1);
            },
        }
    }
}

/// Answering each question of a scan with what the file system holds there
/// completes the tree of the directory that was asked for first: it is
/// handed to the directories above, or is the result where there is none.
pub proof fn lemma_scan_gives_tree(
    frames: Seq<FrameState>,
    path: Seq<Seq<char>>,
    below: Option<Seq<Found>>,
)
    ensures
        answered(ScanState::Asking { frames, path }, below) == deliver(
            frames,
            tree_of(path, below),
        ),
    decreases below, 0nat,
{
    if let Some(items) = below {
        assert(frame_at(path, items, 0) == FrameState {
            path,
            entries: entries_of(items),
            next: 0,
            done: Seq::empty(),
        });
        lemma_answered_from(frames, path, items, 0);
    }
}

/// A scan of the directory at `path` ends with the tree of what the file
/// system holds there.
pub proof fn lemma_scan_of_root(path: Seq<Seq<char>>, below: Option<Seq<Found>>)
    ensures
        answered(ScanState::initial(path), below) == (ScanState::Finished {
            tree: tree_of(path, below),
        }),
{
    lemma_scan_gives_tree(Seq::empty(), path, below);
}

/// Whether `node` is the child that one of the first `count` of `items`
/// gives to the directory at `path`.
spec fn comes_from(node: Node, path: Seq<Seq<char>>, items: Seq<Found>, count: nat) -> bool {
    exists|j: int| 0 <= j < count && node.path == path.push((#[trigger] items[j]).entry.name)
}

proof fn lemma_children_of(path: Seq<Seq<char>>, items: Seq<Found>, count: nat)
    requires
        count <= items.len(),
    ensures
        forall|k: int|
            0 <= k < children_of(path, items, count).len() ==> {
                let child = #[trigger] children_of(path, items, count)[k];
                &&& child.aggregated()
                &&& child.files_are_leaves()
                &&& comes_from(child, path, items, count)
                &&& well_named(Some(items)) ==> child.nested()
            },
        well_named(Some(items)) ==> forall|k: int, l: int|
            0 <= k < l < children_of(path, items, count).len() ==> (#[trigger] children_of(
                path,
                items,
                count,
            )[k]).path != (#[trigger] children_of(path, items, count)[l]).path,
    decreases items, count,
{
    if count > 0 {
        let before = children_of(path, items, (count - 1) as nat);
        let children = children_of(path, items, count);
        let item = items[count - 1];
        lemma_children_of(path, items, (count - 1) as nat);
        lemma_tree_of(path.push(item.entry.name), item.below);
        assert forall|k: int| 0 <= k < children.len() implies {
            let child = #[trigger] children[k];
            &&& child.aggregated()
            &&& child.files_are_leaves()
            &&& comes_from(child, path, items, count)
            &&& well_named(Some(items)) ==> child.nested()
        } by {
            if k < before.len() {
                assert(children[k] == before[k]);
                assert(comes_from(before[k], path, items, (count - 1) as nat));
                let j = choose|j: int|
                    0 <= j < count - 1 && before[k].path == path.push(
                        (#[trigger] items[j]).entry.name,
                    );
                assert(children[k].path == path.push(items[j].entry.name));
            } else {
                assert(children[k].path == path.push(items[count - 1].entry.name));
            }
        }
        if well_named(Some(items)) {
            assert forall|k: int, l: int| 0 <= k < l < children.len() implies (#[trigger] children[
                k
            ]).path != (#[trigger] children[l]).path by {
                if l == before.len() {
                    assert(comes_from(before[k], path, items, (count - 1) as nat));
                    let j = choose|j: int|
                        0 <= j < count - 1 && before[k].path == path.push(
                            (#[trigger] items[j]).entry.name,
                        );
                    assert(items[j].entry.name != items[count - 1].entry.name);
                    assert(path.push(items[j].entry.name).last() == items[j].entry.name);
                    assert(path.push(item.entry.name).last() == item.entry.name);
                } else {
                    assert(before[k].path != before[l].path);
                }
            }
        }
    }
}

/// The tree of a directory is sound: its sizes add up and its files are
/// leaves. Its paths nest where every entry has a name of its own.
pub proof fn lemma_tree_of(path: Seq<Seq<char>>, below: Option<Seq<Found>>)
    ensures
        tree_of(path, below).path == path,
        tree_of(path, below).aggregated(),
        tree_of(path, below).files_are_leaves(),
        well_named(below) ==> tree_of(path, below).nested(),
        well_named(below) ==> tree_of(path, below).well_formed(),
    decreases below, 0nat,
{
    if let Some(items) = below {
        let children = children_of(path, items, items.len());
        lemma_children_of(path, items, items.len());
        assert forall|k: int| 0 <= k < children.len() implies extends(
            (#[trigger] children[k]).path,
            path,
        ) by {
            assert(comes_from(children[k], path, items, items.len()));
            let j = choose|j: int|
                0 <= j < items.len() && children[k].path == path.push(
                    (#[trigger] items[j]).entry.name,
                );
            assert(path.push(items[j].entry.name).drop_last() =~= path);
            assert(path.push(items[j].entry.name).last() == items[j].entry.name);
            assert(well_named(below) ==> is_name(items[j].entry.name));
        }
    }
}

} // verus!
