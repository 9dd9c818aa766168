//! The scan as a mathematical value: its states, its steps, and what holds of them.

use crate::scanning::Probe;
use crate::tree::{total_size, Node};
use vstd::prelude::*;

verus! {

/// The value that an `Entry` stands for.
pub ghost struct EntryView {
    pub name: Seq<char>,
    pub probe: Probe,
}

/// The node for a directory at `path` that could not be read.
pub open spec fn unreadable(path: Seq<Seq<char>>) -> Node {
    Node { size: 0, path, contents: None, is_file: false }
}

/// The node for a directory at `path` with the children `children`.
pub open spec fn directory(path: Seq<Seq<char>>, children: Seq<Node>) -> Node {
    Node { size: total_size(children), path, contents: Some(children), is_file: false }
}

/// The node for `entry` of the directory at `parent`, where it is not a
/// directory and its metadata could be read.
pub open spec fn leaf_of(parent: Seq<Seq<char>>, entry: EntryView) -> Option<Node> {
    match entry.probe {
        Probe::File { size, is_file } => Some(
            Node { size: size as nat, path: parent.push(entry.name), contents: None, is_file },
        ),
        _ => None,
    }
}

/// The size of the leaf that `entry` gives; 0 where it gives none.
pub open spec fn leaf_bytes(entry: EntryView) -> nat {
    match entry.probe {
        Probe::File { size, is_file } => size as nat,
        _ => 0,
    }
}

/// The sizes together of those of `entries` that give a leaf.
pub open spec fn file_bytes(entries: Seq<EntryView>) -> nat
    decreases entries.len(),
{
    if entries.len() == 0 {
        0
    } else {
        file_bytes(entries.drop_last()) + leaf_bytes(entries.last())
    }
}

/// A directory whose listing was taken and whose entries are being gone through.
///
/// - `path`: where it is
/// - `entries`: its listing
/// - `next`: how many of the entries have been gone through
/// - `done`: the nodes for those
pub ghost struct FrameState {
    pub path: Seq<Seq<char>>,
    pub entries: Seq<EntryView>,
    pub next: nat,
    pub done: Seq<Node>,
}

impl FrameState {
    /// The entries that have not been gone through.
    pub open spec fn remaining(self) -> Seq<EntryView> {
        self.entries.skip(self.next as int)
    }

    /// `self` with one more entry gone through, which gave no node.
    pub open spec fn skipped(self) -> FrameState {
        FrameState { next: self.next + 1, ..self }
    }

    /// `self` with `node` as one more child.
    pub open spec fn with(self, node: Node) -> FrameState {
        FrameState { done: self.done.push(node), ..self }
    }
}

/// The state of a scan.
pub ghost enum ScanState {
    /// The listing of the directory at `path` is wanted. `frames` are the
    /// directories above it, outermost first.
    Asking { frames: Seq<FrameState>, path: Seq<Seq<char>> },
    /// The scan is over, and `tree` is what it gave.
    Finished { tree: Node },
}

/// Whether each of `scans` is over.
pub open spec fn all_over(scans: Seq<ScanState>) -> bool {
    forall|i: int| 0 <= i < scans.len() ==> (#[trigger] scans[i]) is Finished
}

/// The trees that `scans` gave, in their order.
pub open spec fn trees_of(scans: Seq<ScanState>) -> Seq<Node> {
    Seq::new(scans.len(), |i: int| scans[i]->tree)
}

/// How much is left to do in `frames`: an upper bound on the steps until
/// the next question.
pub open spec fn work(frames: Seq<FrameState>) -> nat
    decreases frames.len(),
{
    if frames.len() == 0 {
        0
    } else {
        work(frames.drop_last()) + frames.last().remaining().len() + 1
    }
}

proof fn lemma_work_of_pushed(frames: Seq<FrameState>, frame: FrameState)
    ensures
        work(frames.push(frame)) == work(frames) + frame.remaining().len() + 1,
{
    assert(frames.push(frame).drop_last() =~= frames);
}

/// The scan after the subtree `node` is complete: it becomes a child of the
/// innermost of `frames`, where the scan goes on; without a frame it is the
/// result.
pub open spec fn deliver(frames: Seq<FrameState>, node: Node) -> ScanState
    decreases work(frames), 1nat,
    via deliver_decreases
{
    if frames.len() == 0 {
        ScanState::Finished { tree: node }
    } else {
        advance(frames.drop_last().push(frames.last().with(node)))
    }
}

/// The scan as it goes through the entries of the innermost of `frames`: a leaf
/// becomes a child, an entry that could not be read is passed over, a directory
/// is asked for; at the end of the entries the directory is complete.
pub open spec fn advance(frames: Seq<FrameState>) -> ScanState
    decreases work(frames), 0nat,
    via advance_decreases
{
    if frames.len() == 0 {
        arbitrary()
    } else {
        let top = frames.last();
        let above = frames.drop_last();
        if top.next >= top.entries.len() {
            deliver(above, directory(top.path, top.done))
        } else {
            let entry = top.entries[top.next as int];
            match entry.probe {
                Probe::Directory => ScanState::Asking {
                    frames: above.push(top.skipped()),
                    path: top.path.push(entry.name),
                },
                Probe::File { size, is_file } => advance(
                    above.push(top.skipped().with(leaf_of(top.path, entry)->0)),
                ),
                _ => advance(above.push(top.skipped())),
            }
        }
    }
}

#[via_fn]
proof fn deliver_decreases(frames: Seq<FrameState>, node: Node) {
    if frames.len() > 0 {
        lemma_work_of_pushed(frames.drop_last(), frames.last().with(node));
    }
}

#[via_fn]
proof fn advance_decreases(frames: Seq<FrameState>) {
    if frames.len() > 0 {
        let top = frames.last();
        let above = frames.drop_last();
        if top.next < top.entries.len() {
            let entry = top.entries[top.next as int];
            lemma_work_of_pushed(above, top.skipped());
            lemma_work_of_pushed(above, top.skipped().with(leaf_of(top.path, entry)->0));
        }
    }
}

impl ScanState {
    /// The state in which the scan of the directory at `path` starts.
    pub open spec fn initial(path: Seq<Seq<char>>) -> ScanState {
        ScanState::Asking { frames: Seq::empty(), path }
    }

    /// The state in which the scan of `entry` of the directory at `parent`
    /// starts: that of a scan of its own for a directory, one that is over
    /// at once for a leaf, none for an entry that could not be read.
    pub open spec fn of_entry(parent: Seq<Seq<char>>, entry: EntryView) -> Option<ScanState> {
        match entry.probe {
            Probe::Directory => Some(ScanState::initial(parent.push(entry.name))),
            Probe::File { size, is_file } => Some(
                ScanState::Finished { tree: leaf_of(parent, entry)->0 },
            ),
            _ => None,
        }
    }

    /// The state after `listing` was given for the directory that was asked for.
    pub open spec fn answer(self, listing: Option<Seq<EntryView>>) -> ScanState {
        match self {
            ScanState::Asking { frames, path } => match listing {
                None => deliver(frames, unreadable(path)),
                Some(entries) => advance(
                    frames.push(FrameState { path, entries, next: 0, done: Seq::empty() }),
                ),
            },
            ScanState::Finished { tree } => self,
        }
    }
}

/// The bytes that `frames` account for: the sizes of the children that are
/// there and of the leaves that the rest of the entries will give.
pub open spec fn counted(frames: Seq<FrameState>) -> nat
    decreases frames.len(),
{
    if frames.len() == 0 {
        0
    } else {
        counted(frames.drop_last()) + total_size(frames.last().done) + file_bytes(
            frames.last().remaining(),
        )
    }
}

impl FrameState {
    /// The children that are there are sound trees.
    pub open spec fn sound(self) -> bool {
        &&& self.next <= self.entries.len()
        &&& forall|i: int|
            0 <= i < self.done.len() ==> (#[trigger] self.done[i]).aggregated()
                && self.done[i].files_are_leaves()
    }
}

impl ScanState {
    /// Every tree in the state is sound: its sizes add up, and its files are leaves.
    pub open spec fn sound(self) -> bool {
        match self {
            ScanState::Asking { frames, path } => forall|k: int|
                0 <= k < frames.len() ==> (#[trigger] frames[k]).sound(),
            ScanState::Finished { tree } => tree.aggregated() && tree.files_are_leaves(),
        }
    }

    /// Whether `listing` can be taken: with its files, the bytes accounted
    /// for still fit into 64 bits. A scan that is over takes everything, and
    /// stays as it is.
    pub open spec fn accepts(self, listing: Option<Seq<EntryView>>) -> bool {
        match (self, listing) {
            (ScanState::Asking { frames, path }, Some(entries)) => counted(frames) + file_bytes(
                entries,
            ) <= u64::MAX,
            _ => true,
        }
    }
}

proof fn lemma_deliver_is_sound(frames: Seq<FrameState>, node: Node)
    requires
        forall|k: int| 0 <= k < frames.len() ==> (#[trigger] frames[k]).sound(),
        node.aggregated(),
        node.files_are_leaves(),
    ensures
        deliver(frames, node).sound(),
    decreases work(frames), 1nat,
{
    if frames.len() > 0 {
        let grown = frames.drop_last().push(frames.last().with(node));
        lemma_work_of_pushed(frames.drop_last(), frames.last().with(node));
        assert(frames.last().sound());
        assert forall|k: int| 0 <= k < grown.len() implies (#[trigger] grown[k]).sound() by {
            if k < grown.len() - 1 {
                assert(frames[k].sound());
            }
        }
        lemma_advance_is_sound(grown);
    }
}

proof fn lemma_advance_is_sound(frames: Seq<FrameState>)
    requires
        frames.len() > 0,
        forall|k: int| 0 <= k < frames.len() ==> (#[trigger] frames[k]).sound(),
    ensures
        advance(frames).sound(),
    decreases work(frames), 0nat,
{
    let top = frames.last();
    let above = frames.drop_last();
    assert(top.sound());
    assert forall|k: int| 0 <= k < above.len() implies (#[trigger] above[k]).sound() by {
        assert(frames[k].sound());
    }
    if top.next >= top.entries.len() {
        lemma_deliver_is_sound(above, directory(top.path, top.done));
    } else {
        let entry = top.entries[top.next as int];
        let next = match entry.probe {
            Probe::File { size, is_file } => top.skipped().with(leaf_of(top.path, entry)->0),
            _ => top.skipped(),
        };
        let grown = above.push(next);
        lemma_work_of_pushed(above, next);
        assert forall|k: int| 0 <= k < grown.len() implies (#[trigger] grown[k]).sound() by {
            if k < above.len() {
                assert(above[k].sound());
            } else {
                assert forall|i: int| 0 <= i < next.done.len() implies (#[trigger] next.done[i])
                    .aggregated() && next.done[i].files_are_leaves() by {
                    if i < top.done.len() {
                        assert(top.done[i].aggregated());
                    }
                }
            }
        }
        if !(entry.probe is Directory) {
            lemma_advance_is_sound(grown);
        }
    }
}

/// A scan starts in a sound state.
pub proof fn lemma_initial_is_sound(path: Seq<Seq<char>>)
    ensures
        ScanState::initial(path).sound(),
{
}

/// Whatever a scan is answered, every tree in it stays sound: the sizes of
/// each directory add up, and files are leaves.
pub proof fn lemma_answer_is_sound(state: ScanState, listing: Option<Seq<EntryView>>)
    requires
        state.sound(),
    ensures
        state.answer(listing).sound(),
{
    if let ScanState::Asking { frames, path } = state {
        match listing {
            None => {
                lemma_deliver_is_sound(frames, unreadable(path));
            },
            Some(entries) => {
                let frame = FrameState { path, entries, next: 0, done: Seq::empty() };
                let grown = frames.push(frame);
                assert forall|k: int| 0 <= k < grown.len() implies (#[trigger] grown[k]).sound(
                ) by {
                    if k < frames.len() {
                        assert(frames[k].sound());
                    }
                }
                lemma_advance_is_sound(grown);
            },
        }
    }
}

/// What a frame adds to the bytes accounted for.
pub proof fn lemma_counted_of_pushed(frames: Seq<FrameState>, frame: FrameState)
    ensures
        counted(frames.push(frame)) == counted(frames) + total_size(frame.done) + file_bytes(
            frame.remaining(),
        ),
{
    assert(frames.push(frame).drop_last() =~= frames);
}

/// The bytes of a listing are those of its first entry and those of the rest.
pub proof fn lemma_file_bytes_from_front(entries: Seq<EntryView>)
    requires
        entries.len() > 0,
    ensures
        file_bytes(entries) == leaf_bytes(entries[0]) + file_bytes(entries.drop_first()),
    decreases entries.len(),
{
    if entries.len() == 1 {
        assert(file_bytes(entries.drop_last()) == 0);
        assert(file_bytes(entries.drop_first()) == 0);
    } else {
        lemma_file_bytes_from_front(entries.drop_last());
        assert(entries.drop_last().drop_first() =~= entries.drop_first().drop_last());
    }
}

/// The first entries of a listing have no more bytes than all of them.
pub proof fn lemma_file_bytes_grows(entries: Seq<EntryView>, count: int)
    requires
        0 <= count <= entries.len(),
    ensures
        file_bytes(entries.take(count)) <= file_bytes(entries),
    decreases entries.len(),
{
    if count < entries.len() {
        lemma_file_bytes_grows(entries.drop_last(), count);
        assert(entries.drop_last().take(count) =~= entries.take(count));
    } else {
        assert(entries.take(count) =~= entries);
    }
}

} // verus!
