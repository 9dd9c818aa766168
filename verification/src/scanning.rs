//! Building the size tree from what the file system says, one directory at a time.

use crate::path::DirPath;
use crate::structs::{lemma_view_of_contents, nodes_of, Dir};
use crate::traversal::{
    advance, all_over, counted, deliver, directory, file_bytes, leaf_of,
    lemma_counted_of_pushed, lemma_file_bytes_from_front, lemma_file_bytes_grows, trees_of,
    unreadable, EntryView, FrameState, ScanState,
};
use crate::tree::{lemma_total_size_grows, lemma_total_size_of_pushed, total_size, Node};
use vstd::prelude::*;

verus! {

/// What the file system said of one entry of a directory.
#[derive(Debug, Clone, Copy, PartialEq, Eq)]
pub enum Probe {
    /// The entry is a directory.
    Directory,
    /// The entry is not a directory, and its metadata could be read.
    File { size: u64, is_file: bool },
    /// Reading the metadata was not permitted.
    PermissionDenied,
    /// Reading the metadata failed otherwise.
    Failed,
}

/// One entry of a directory: its name there and what was found of it.
#[derive(Debug, PartialEq, Eq)]
pub struct Entry {
    pub name: String,
    pub probe: Probe,
}

/// The answer to the question what a directory holds.
#[derive(Debug, PartialEq, Eq)]
pub enum Listing {
    /// The directory could not be read.
    Unreadable,
    /// The entries of the directory.
    Entries(Vec<Entry>),
}

/// Why a listing was not taken.
#[derive(Debug, Clone, Copy, PartialEq, Eq)]
pub enum ScanError {
    /// The sizes of the files found do not fit into 64 bits together.
    TooLarge,
    /// A scan whose tree was asked for is not over.
    Unfinished,
}

impl View for Entry {
    type V = EntryView;

    open spec fn view(&self) -> EntryView {
        EntryView { name: self.name@, probe: self.probe }
    }
}

/// The values that `entries` stand for.
pub open spec fn entry_views(entries: Seq<Entry>) -> Seq<EntryView> {
    Seq::new(entries.len(), |i: int| entries[i]@)
}

impl View for Listing {
    type V = Option<Seq<EntryView>>;

    open spec fn view(&self) -> Option<Seq<EntryView>> {
        match self {
            Listing::Unreadable => None,
            Listing::Entries(entries) => Some(entry_views(entries@)),
        }
    }
}

/// The sizes together of those of `entries` that give a leaf, where they fit
/// into 64 bits.
pub fn checked_file_bytes(entries: &Vec<Entry>) -> (bytes: Option<u64>)
    ensures
        bytes is Some <==> file_bytes(entry_views(entries@)) <= u64::MAX,
        bytes matches Some(sum) ==> sum == file_bytes(entry_views(entries@)),
{
    let ghost all = entry_views(entries@);
    let mut sum: u64 = 0;
    let mut i: usize = 0;
    assert(all.take(0) =~= Seq::empty());
    while i < entries.len()
        invariant
            i <= entries.len(),
            all == entry_views(entries@),
            sum == file_bytes(all.take(i as int)),
        decreases entries.len() - i,
    {
        proof {
            assert(all.take(i + 1).drop_last() =~= all.take(i as int));
            assert(all.take(i + 1).last() == entries@[i as int]@);
            lemma_file_bytes_grows(all, i + 1);
        }
        if let Probe::File { size, is_file } = entries[i].probe {
            if size > u64::MAX - sum {
                return None;
            }
            sum += size;
        }
        i += 1;
    }
    assert(all.take(i as int) =~= all);
    Some(sum)
}

/// The node for a directory at `path` that could not be read.
pub fn unreadable_dir(path: DirPath) -> (dir: Dir)
    ensures
        dir@ == unreadable(path@),
{
    Dir::new(0, path, None, false)
}

/// The node for `entry` of the directory at `parent`, where it is not a
/// directory and its metadata could be read.
pub fn leaf(parent: &DirPath, entry: &Entry) -> (dir: Option<Dir>)
    ensures
        dir is Some <==> leaf_of(parent@, entry@) is Some,
        dir matches Some(d) ==> Some(d@) == leaf_of(parent@, entry@),
{
    match entry.probe {
        Probe::File { size, is_file } => Some(
            Dir::new(size, parent.join(entry.name.as_str()), None, is_file),
        ),
        _ => None,
    }
}

/// The sizes of `dirs` together, where they fit into 64 bits.
pub fn checked_total(dirs: &Vec<Dir>) -> (total: Option<u64>)
    ensures
        total is Some <==> total_size(nodes_of(dirs@)) <= u64::MAX,
        total matches Some(sum) ==> sum == total_size(nodes_of(dirs@)),
{
    let ghost all = nodes_of(dirs@);
    let mut sum: u64 = 0;
    let mut i: usize = 0;
    assert(all.take(0) =~= Seq::empty());
    while i < dirs.len()
        invariant
            i <= dirs.len(),
            all == nodes_of(dirs@),
            sum == total_size(all.take(i as int)),
        decreases dirs.len() - i,
    {
        proof {
            assert(all.take(i + 1).drop_last() =~= all.take(i as int));
            lemma_total_size_grows(all, i + 1);
        }
        let size = dirs[i].size;
        if size > u64::MAX - sum {
            return None;
        }
        sum += size;
        i += 1;
    }
    assert(all.take(i as int) =~= all);
    Some(sum)
}

/// The node for a directory at `path` with the children `children`: as large
/// as they are together. Gives none where that does not fit into 64 bits.
pub fn directory_of(path: DirPath, children: Vec<Dir>) -> (dir: Result<Dir, ScanError>)
    ensures
        dir is Ok <==> total_size(nodes_of(children@)) <= u64::MAX,
        dir matches Err(error) ==> error == ScanError::TooLarge,
        dir matches Ok(d) ==> d@ == directory(path@, nodes_of(children@)),
        dir matches Ok(d) ==> (d@.aggregated() <==> forall|i: int|
            0 <= i < children@.len() ==> (#[trigger] children@[i])@.aggregated()),
{
    match checked_total(&children) {
        Some(size) => {
            let dir = Dir::new(size, path, Some(children), false);
            proof {
                lemma_view_of_contents(dir);
                let nodes = nodes_of(children@);
                if dir@.aggregated() {
                    assert forall|i: int| 0 <= i < children@.len() implies (#[trigger] children@[
                        i
                    ])@.aggregated() by {
                        assert(nodes[i].aggregated());
                    }
                }
            }
            Ok(dir)
        },
        None => Err(ScanError::TooLarge),
    }
}

/// A directory of the scan whose entries are being gone through.
struct Frame {
    path: DirPath,
    entries: Vec<Entry>,
    next: usize,
    children: Vec<Dir>,
    size: u64,
}

impl View for Frame {
    type V = FrameState;

    closed spec fn view(&self) -> FrameState {
        FrameState {
            path: self.path@,
            entries: entry_views(self.entries@),
            next: self.next as nat,
            done: nodes_of(self.children@),
        }
    }
}

impl Frame {
    spec fn well_formed(&self) -> bool {
        &&& self@.sound()
        &&& self.size == total_size(self@.done)
    }
}

spec fn frame_views(frames: Seq<Frame>) -> Seq<FrameState> {
    Seq::new(frames.len(), |i: int| frames[i]@)
}

spec fn frames_well_formed(frames: Seq<Frame>) -> bool {
    forall|k: int| 0 <= k < frames.len() ==> (#[trigger] frames[k]).well_formed()
}

/// A scan of a directory tree, which asks for one directory after the other.
pub struct Scanner {
    frames: Vec<Frame>,
    awaiting: Option<DirPath>,
    tree: Option<Dir>,
    bytes: u64,
}

impl View for Scanner {
    type V = ScanState;

    closed spec fn view(&self) -> ScanState {
        match self.awaiting {
            Some(path) => ScanState::Asking { frames: frame_views(self.frames@), path: path@ },
            None => ScanState::Finished { tree: self.tree->0@ },
        }
    }
}

impl Scanner {
    /// The scan is in a state that it can reach, and every tree in it is sound.
    pub closed spec fn well_formed(&self) -> bool {
        &&& self.awaiting is None ==> self.tree is Some && self.frames@.len() == 0
        &&& frames_well_formed(self.frames@)
        &&& self.awaiting is Some ==> self.bytes == counted(frame_views(self.frames@))
        &&& self@.sound()
    }

    /// In a state that a scan can reach, every tree is sound.
    pub proof fn lemma_well_formed_is_sound(&self)
        requires
            self.well_formed(),
        ensures
            self@.sound(),
    {
    }

    /// A scan of the directory at `path_to_dir`.
    pub fn new(path_to_dir: DirPath) -> (scanner: Scanner)
        ensures
            scanner@ == ScanState::initial(path_to_dir@),
            scanner.well_formed(),
    {
        let scanner = Scanner {
            frames: Vec::new(),
            awaiting: Some(path_to_dir),
            tree: None,
            bytes: 0,
        };
        assert(frame_views(scanner.frames@) =~= Seq::empty());
        scanner
    }

    /// The directory whose listing is wanted next; none when the scan is over.
    pub fn awaiting(&self) -> (path: Option<&DirPath>)
        ensures
            match self@ {
                ScanState::Asking { frames, path: wanted } => path matches Some(p) && p@ == wanted,
                ScanState::Finished { tree } => path is None,
            },
    {
        self.awaiting.as_ref()
    }

    /// Goes through the entries of `frame`, the innermost directory of the
    /// scan. Gives the directory when it is complete, and none when a
    /// directory in it is asked for.
    fn advance_frame(&mut self, frame: Frame) -> (complete: Option<Dir>)
        requires
            old(self).awaiting is None,
            frames_well_formed(old(self).frames@),
            frame.well_formed(),
            counted(frame_views(old(self).frames@).push(frame@)) <= u64::MAX,
        ensures
            frames_well_formed(final(self).frames@),
            final(self).tree == old(self).tree,
            final(self).bytes == old(self).bytes,
            complete is Some <==> final(self).awaiting is None,
            complete matches Some(node) ==> {
                &&& final(self).frames@ == old(self).frames@
                &&& advance(frame_views(old(self).frames@).push(frame@)) == deliver(
                    frame_views(old(self).frames@),
                    node@,
                )
                &&& node@.aggregated()
                &&& node@.files_are_leaves()
                &&& counted(frame_views(old(self).frames@).push(frame@)) == counted(
                    frame_views(old(self).frames@),
                ) + node@.size
            },
            complete is None ==> {
                &&& advance(frame_views(old(self).frames@).push(frame@)) == final(self)@
                &&& counted(frame_views(old(self).frames@).push(frame@)) == counted(
                    frame_views(final(self).frames@),
                )
            },
    {
        let ghost above = frame_views(self.frames@);
        let ghost start = frame@;
        let Frame { path, entries, next, children, size } = frame;
        let mut next = next;
        let mut children = children;
        let mut size = size;
        while next < entries.len()
            invariant
                next <= entries.len(),
                above == frame_views(self.frames@),
                start == frame@,
                *self == *old(self),
                self.awaiting is None,
                frames_well_formed(self.frames@),
                ({
                    let current = FrameState {
                        path: path@,
                        entries: entry_views(entries@),
                        next: next as nat,
                        done: nodes_of(children@),
                    };
                    &&& current.sound()
                    &&& size == total_size(current.done)
                    &&& advance(above.push(start)) == advance(above.push(current))
                    &&& counted(above.push(start)) == counted(above.push(current))
                }),
                counted(above.push(start)) <= u64::MAX,
            decreases entries.len() - next,
        {
            let ghost current = FrameState {
                path: path@,
                entries: entry_views(entries@),
                next: next as nat,
                done: nodes_of(children@),
            };
            proof {
                assert(above.push(current).drop_last() =~= above);
                lemma_counted_of_pushed(above, current);
                lemma_counted_of_pushed(above, current.skipped());
                lemma_file_bytes_from_front(current.remaining());
                assert(current.skipped().remaining() =~= current.remaining().drop_first());
                assert(current.remaining()[0] == entries@[next as int]@);
            }
            let probe = entries[next].probe;
            match probe {
                Probe::Directory => {
                    let wanted = path.join(entries[next].name.as_str());
                    let paused = Frame { path, entries, next: next + 1, children, size };
                    assert(paused@ == current.skipped());
                    assert(paused.well_formed());
                    self.frames.push(paused);
                    self.awaiting = Some(wanted);
                    assert(frame_views(self.frames@) =~= above.push(current.skipped()));
                    assert(above.push(current).last() == current);
                    assert(wanted@ == current.path.push(current.entries[current.next as int].name));
                    assert(self@ == ScanState::Asking {
                        frames: above.push(current.skipped()),
                        path: wanted@,
                    });
                    return None;
                },
                Probe::File { size: bytes, is_file } => {
                    let file = leaf(&path, &entries[next]).unwrap();
                    proof {
                        let grown = current.skipped().with(file@);
                        lemma_total_size_of_pushed(current.done, file@);
                        lemma_counted_of_pushed(above, grown);
                        assert(grown.remaining() == current.skipped().remaining());
                        assert(nodes_of(children@.push(file)) =~= current.done.push(file@));
                    }
                    size += bytes;
                    children.push(file);
                    next += 1;
                },
                _ => {
                    next += 1;
                },
            }
        }
        let ghost current = FrameState {
            path: path@,
            entries: entry_views(entries@),
            next: next as nat,
            done: nodes_of(children@),
        };
        let node = Dir::new(size, path, Some(children), false);
        proof {
            assert(above.push(current).drop_last() =~= above);
            lemma_counted_of_pushed(above, current);
            assert(current.remaining() =~= Seq::empty());
            lemma_view_of_contents(node);
            assert(node@ == directory(current.path, current.done));
        }
        Some(node)
    }

    /// Takes `listing` as what the directory that was asked for holds, and goes
    /// on to the next directory to ask for, or to the end of the scan. Takes
    /// nothing where the sizes would no longer fit into 64 bits. A scan that
    /// is over stays as it is.
    pub fn feed(&mut self, listing: Listing) -> (taken: Result<(), ScanError>)
        requires
            old(self).well_formed(),
        ensures
            final(self).well_formed(),
            taken is Ok <==> old(self)@.accepts(listing@),
            taken matches Err(error) ==> error == ScanError::TooLarge,
            taken is Ok ==> final(self)@ == old(self)@.answer(listing@),
            taken is Err ==> final(self)@ == old(self)@,
    {
        if self.awaiting.is_none() {
            return Ok(());
        }
        let ghost target = self@.answer(listing@);
        let ghost asked = self.awaiting->0@;
        let mut complete: Option<Dir>;
        match listing {
            Listing::Unreadable => {
                let path = self.awaiting.take().unwrap();
                complete = Some(unreadable_dir(path));
            },
            Listing::Entries(entries) => {
                let added = match checked_file_bytes(&entries) {
                    Some(added) => added,
                    None => {
                        return Err(ScanError::TooLarge);
                    },
                };
                if added > u64::MAX - self.bytes {
                    return Err(ScanError::TooLarge);
                }
                self.bytes += added;
                let path = self.awaiting.take().unwrap();
                let frame = Frame { path, entries, next: 0, children: Vec::new(), size: 0 };
                proof {
                    assert(frame@.done =~= Seq::empty());
                    assert(frame@ == FrameState {
                        path: asked,
                        entries: listing@->0,
                        next: 0,
                        done: Seq::empty(),
                    });
                    assert(frame@.remaining() =~= frame@.entries);
                    lemma_counted_of_pushed(frame_views(self.frames@), frame@);
                }
                complete = self.advance_frame(frame);
            },
        }
        loop
            invariant
                frames_well_formed(self.frames@),
                complete is Some <==> self.awaiting is None,
                complete matches Some(node) ==> {
                    &&& target == deliver(frame_views(self.frames@), node@)
                    &&& self.bytes == counted(frame_views(self.frames@)) + node@.size
                    &&& node@.aggregated()
                    &&& node@.files_are_leaves()
                },
                complete is None ==> target == self@ && self.bytes == counted(
                    frame_views(self.frames@),
                ),
                old(self)@.accepts(listing@),
                target == old(self)@.answer(listing@),
            decreases
                    (if complete is Some {
                        self.frames@.len() + 1
                    } else {
                        0
                    }),
        {
            let node = match complete {
                Some(node) => node,
                None => {
                    return Ok(());
                },
            };
            let ghost frames = frame_views(self.frames@);
            let mut parent = match self.frames.pop() {
                Some(parent) => parent,
                None => {
                    self.tree = Some(node);
                    return Ok(());
                },
            };
            proof {
                assert(frame_views(self.frames@) =~= frames.drop_last());
                assert(parent@ == frames.last());
                assert(frames =~= frames.drop_last().push(frames.last()));
                lemma_counted_of_pushed(frames.drop_last(), frames.last());
                lemma_counted_of_pushed(frames.drop_last(), frames.last().with(node@));
                lemma_total_size_of_pushed(parent@.done, node@);
                assert(nodes_of(parent.children@.push(node)) =~= parent@.done.push(node@));
            }
            parent.size += node.size;
            parent.children.push(node);
            complete = self.advance_frame(parent);
        }
    }

    /// The scan of `entry` of the directory at `parent`: a scan of its own for
    /// a directory, one that is over at once for a leaf, none for an entry
    /// that could not be read.
    pub fn for_entry(parent: &DirPath, entry: &Entry) -> (scan: Option<Scanner>)
        ensures
            scan is Some <==> ScanState::of_entry(parent@, entry@) is Some,
            scan matches Some(scanner) ==> Some(scanner@) == ScanState::of_entry(parent@, entry@)
                && scanner.well_formed(),
    {
        match entry.probe {
            Probe::Directory => Some(Scanner::new(parent.join(entry.name.as_str()))),
            Probe::File { size, is_file } => {
                let scanner = Scanner {
                    frames: Vec::new(),
                    awaiting: None,
                    tree: leaf(parent, entry),
                    bytes: size,
                };
                Some(scanner)
            },
            _ => None,
        }
    }

    /// The tree that the scan gave, once it is over.
    pub fn into_tree(self) -> (tree: Option<Dir>)
        requires
            self.well_formed(),
        ensures
            match self@ {
                ScanState::Asking { frames, path } => tree is None,
                ScanState::Finished { tree: found } => tree matches Some(t) && t@ == found,
            },
            tree matches Some(t) ==> t@.aggregated() && t@.files_are_leaves(),
    {
        if self.awaiting.is_some() {
            None
        } else {
            self.tree
        }
    }
}

/// The states that `scans` are in.
pub open spec fn scan_states(scans: Seq<Scanner>) -> Seq<ScanState> {
    Seq::new(scans.len(), |i: int| scans[i]@)
}

/// The directory at `path` whose children are the trees that `scans` gave, in
/// the order of `scans`: as large as they are together, so that sizes add up
/// at every level. Gives none where one of the scans is not over, or the
/// sizes do not fit into 64 bits.
pub fn join(path: DirPath, scans: Vec<Scanner>) -> (dir: Result<Dir, ScanError>)
    requires
        forall|i: int| 0 <= i < scans@.len() ==> (#[trigger] scans@[i]).well_formed(),
    ensures
        dir is Ok <==> all_over(scan_states(scans@)) && total_size(
            trees_of(scan_states(scans@)),
        ) <= u64::MAX,
        dir matches Err(error) ==> (error == ScanError::Unfinished <==> !all_over(
            scan_states(scans@),
        )),
        dir matches Ok(d) ==> {
            &&& d@ == directory(path@, trees_of(scan_states(scans@)))
            &&& d@.aggregated()
            &&& d@.files_are_leaves()
        },
{
    let ghost states = scan_states(scans@);
    let ghost trees = trees_of(states);
    let ghost count = scans@.len();
    let mut rest = scans;
    // The trees, last first.
    let mut reversed: Vec<Dir> = Vec::new();
    while rest.len() > 0
        invariant
            rest@.len() + reversed@.len() == count,
            states == scan_states(scans@),
            states.len() == count,
            trees == trees_of(states),
            forall|i: int| 0 <= i < rest@.len() ==> (#[trigger] rest@[i]).well_formed(),
            forall|i: int| 0 <= i < rest@.len() ==> (#[trigger] rest@[i])@ == states[i],
            forall|i: int| rest@.len() <= i < count ==> (#[trigger] states[i]) is Finished,
            forall|k: int|
                0 <= k < reversed@.len() ==> (#[trigger] reversed@[k])@ == trees[count - 1 - k]
                    && reversed@[k]@.aggregated() && reversed@[k]@.files_are_leaves(),
        decreases rest.len(),
    {
        let ghost at = rest@.len() - 1;
        let scanner = rest.pop().unwrap();
        assert(scanner@ == states[at]);
        match scanner.into_tree() {
            Some(tree) => {
                reversed.push(tree);
            },
            None => {
                assert(!(states[at] is Finished));
                return Err(ScanError::Unfinished);
            },
        }
    }
    let mut children: Vec<Dir> = Vec::new();
    while reversed.len() > 0
        invariant
            children@.len() + reversed@.len() == count,
            states == scan_states(scans@),
            trees == trees_of(states),
            trees.len() == count,
            all_over(states),
            forall|k: int|
                0 <= k < reversed@.len() ==> (#[trigger] reversed@[k])@ == trees[count - 1 - k]
                    && reversed@[k]@.aggregated() && reversed@[k]@.files_are_leaves(),
            forall|k: int|
                0 <= k < children@.len() ==> (#[trigger] children@[k])@ == trees[k]
                    && children@[k]@.aggregated() && children@[k]@.files_are_leaves(),
        decreases reversed.len(),
    {
        let tree = reversed.pop().unwrap();
        children.push(tree);
    }
    assert(nodes_of(children@) =~= trees);
    let ghost joined = children@;
    let dir = directory_of(path, children);
    proof {
        assert forall|i: int| 0 <= i < trees.len() implies (#[trigger] trees[i]).files_are_leaves(
        ) by {
            assert(joined[i]@.files_are_leaves());
        }
    }
    dir
}

} // verus!
