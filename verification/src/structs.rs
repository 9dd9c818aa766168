//! The size tree in memory.

use crate::path::{extends, has_name, is_name, text_of, DirPath};
use crate::sorting::{each_sorted, lemma_sorted_tree, ordered, sort_dirs, sorted_tree};
use crate::text::{divide_rounded, fixed2, push_fixed2, rounded_quotient};
use crate::tree::{larger_than, lemma_first_on_the_way, Node};
use vstd::hash_map::StringHashMap;
use vstd::prelude::*;

verus! {

/// The unit in which a size is shown.
#[derive(Debug, Clone, Copy, PartialEq, Eq)]
pub enum SizeFormat {
    BYTES,
    MEGABYTES,
    GIGABYTES,
}

impl SizeFormat {
    /// The number of bytes that make one unit.
    pub open spec fn unit_bytes(self) -> nat {
        match self {
            SizeFormat::BYTES => 1,
            SizeFormat::MEGABYTES => 1_000_000,
            SizeFormat::GIGABYTES => 1_000_000_000,
        }
    }

    /// The name of the unit as it is shown.
    pub open spec fn label(self) -> Seq<char> {
        match self {
            SizeFormat::BYTES => "bytes"@,
            SizeFormat::MEGABYTES => "mb"@,
            SizeFormat::GIGABYTES => "gb"@,
        }
    }

    /// `size` bytes in hundredths of the unit, rounded to the nearest one.
    pub open spec fn hundredths(self, size: nat) -> nat {
        rounded_quotient(size * 100, self.unit_bytes())
    }

    /// `size` bytes as they are shown: the number with two places, a space, the unit.
    pub open spec fn shown(self, size: nat) -> Seq<char> {
        fixed2(self.hundredths(size)) + " "@ + self.label()
    }
}

/// A file or a directory of the scanned tree.
///
/// - `size`: its size in bytes; for a directory, that of all that is in it
/// - `path`: where it is
/// - `contents`: what a directory holds; none for a file and for a directory
///   that could not be read
#[derive(Debug, PartialEq, Eq)]
pub struct Dir {
    pub size: u64,
    pub path: DirPath,
    pub contents: Option<Vec<Dir>>,
    pub is_file: bool,
}

/// The value that `dir` stands for.
pub open spec fn node_of(dir: Dir) -> Node
    decreases dir,
{
    Node {
        size: dir.size as nat,
        path: dir.path@,
        contents: match dir.contents {
            Some(children) => Some(
                Seq::new(
                    children@.len(),
                    |i: int|
                        if 0 <= i < children@.len() {
                            node_of(children@[i])
                        } else {
                            arbitrary()
                        },
                ),
            ),
            None => None,
        },
        is_file: dir.is_file,
    }
}

impl View for Dir {
    type V = Node;

    open spec fn view(&self) -> Node {
        node_of(*self)
    }
}

/// The values that `dirs` stand for.
pub open spec fn nodes_of(dirs: Seq<Dir>) -> Seq<Node> {
    Seq::new(dirs.len(), |i: int| dirs[i]@)
}

/// The values that `dirs` refer to.
pub open spec fn nodes_behind(dirs: Seq<&Dir>) -> Seq<Node> {
    Seq::new(dirs.len(), |i: int| dirs[i]@)
}

/// What a directory's children stand for is what its view holds.
pub proof fn lemma_view_of_contents(dir: Dir)
    requires
        dir.contents is Some,
    ensures
        dir@.contents == Some(nodes_of(dir.contents->0@)),
{
    assert(dir@.contents->0 =~= nodes_of(dir.contents->0@));
}

impl Dir {
    /// A file or a directory.
    ///
    /// - `size`: its size in bytes
    /// - `path`: where it is
    /// - `contents`: what it holds, if it is a directory that was read
    pub fn new(size: u64, path: DirPath, contents: Option<Vec<Dir>>, is_file: bool) -> (dir: Self)
        ensures
            dir.size == size,
            dir.path == path,
            dir.contents == contents,
            dir.is_file == is_file,
    {
        Self { size, path, contents, is_file }
    }

    /// The number of children; 0 for a leaf.
    pub fn len(&self) -> (n: usize)
        ensures
            n == self@.len(),
    {
        match &self.contents {
            Some(c) => c.len(),
            None => 0,
        }
    }

    /// Whether this is a directory that was read and holds nothing.
    pub fn is_empty(&self) -> (empty: bool)
        ensures
            empty == (self@.contents matches Some(children) && children.len() == 0),
    {
        match &self.contents {
            Some(c) => c.len() == 0,
            None => false,
        }
    }

    /// The last component of the path, which is a name.
    pub fn name(&self) -> (name: &str)
        requires
            has_name(self@.path),
        ensures
            name@ == self@.path.last(),
    {
        match self.path.file_name() {
            Some(name) => name,
            None => "",
        }
    }

    /// The size in hundredths of the unit of `size_fmt`, rounded to the nearest
    /// one, and the name of that unit.
    pub fn size_formated(&self, size_fmt: SizeFormat) -> (formated: (u128, &'static str))
        ensures
            formated.0 == size_fmt.hundredths(self@.size),
            formated.1@ == size_fmt.label(),
    {
        let size = self.size as u128;
        match size_fmt {
            SizeFormat::BYTES => (divide_rounded(size * 100, 1), "bytes"),
            SizeFormat::MEGABYTES => (divide_rounded(size * 100, 1_000_000), "mb"),
            SizeFormat::GIGABYTES => (divide_rounded(size * 100, 1_000_000_000), "gb"),
        }
    }

    /// The path and the size in one line.
    pub fn display(&self, size_fmt: SizeFormat) -> (line: String)
        ensures
            line@ == "path: \""@ + text_of(self@.path) + "\" size: "@ + size_fmt.shown(
                self@.size,
            ),
    {
        let (formated_size, format_str) = self.size_formated(size_fmt);
        let mut line = String::new();
        line.append("path: \"");
        line.append(self.path.display().as_str());
        line.append("\" size: ");
        push_fixed2(&mut line, formated_size);
        line.append(" ");
        line.append(format_str);
        assert(line@ =~= "path: \""@ + text_of(self@.path) + "\" size: "@ + size_fmt.shown(
            self@.size,
        ));
        line
    }

    /// The path and the size in megabytes in one line.
    pub fn display_default(&self) -> (line: String)
        ensures
            line@ == "path: \""@ + text_of(self@.path) + "\" size: "@
                + SizeFormat::MEGABYTES.shown(self@.size),
    {
        self.display(SizeFormat::MEGABYTES)
    }

    /// The node whose path is `path` without its last component, looked for
    /// from `self` down through the first child whose path starts `path`;
    /// none where the way leads into a leaf.
    pub fn try_find(&self, path: &DirPath) -> (found: Option<&Self>)
        ensures
            found is Some <==> self@.find(path@) is Some,
            found matches Some(dir) ==> Some(dir@) == self@.find(path@),
        decreases self,
    {
        if path.len() == 0 || self.path.is_parent_of(path) {
            return Some(self);
        }
        match &self.contents {
            None => None,
            Some(contents) => {
                proof {
                    lemma_view_of_contents(*self);
                }
                let ghost children = nodes_of(contents@);
                let mut i: usize = 0;
                while i < contents.len()
                    invariant
                        i <= contents.len(),
                        children == nodes_of(contents@),
                        self.contents == Some(*contents),
                        self@.contents == Some(children),
                        path@.len() != 0,
                        self@.path != path@.drop_last(),
                        forall|j: int|
                            0 <= j < i ==> !(#[trigger] children[j]).path.is_prefix_of(path@),
                    decreases contents.len() - i,
                {
                    let sub_dir = &contents[i];
                    if path.starts_with(&sub_dir.path) {
                        proof {
                            lemma_first_on_the_way(children, path@, i as int);
                        }
                        return sub_dir.try_find(path);
                    }
                    i += 1;
                }
                proof {
                    lemma_first_on_the_way(children, path@, i as int);
                }
                Some(self)
            },
        }
    }

    /// The node whose path is `path` without its last component, looked for
    /// from `self` down through the first child whose path starts `path`.
    pub fn find(&self, path: &DirPath) -> (found: &Self)
        requires
            self@.find(path@) is Some,
        ensures
            Some(found@) == self@.find(path@),
    {
        match self.try_find(path) {
            Some(found) => found,
            None => self,
        }
    }

    /// The children larger than `size_min`, in their order; none for a leaf and
    /// for a directory without such a child.
    pub fn filter_size(&self, size_min: u64) -> (kept: Option<Vec<&Dir>>)
        ensures
            kept is Some <==> self@.filter_size(size_min as nat) is Some,
            kept matches Some(dirs) ==> Some(nodes_behind(dirs@)) == self@.filter_size(
                size_min as nat,
            ),
    {
        match &self.contents {
            None => None,
            Some(contents) => {
                proof {
                    lemma_view_of_contents(*self);
                }
                let ghost children = nodes_of(contents@);
                let mut filtered: Vec<&Dir> = Vec::new();
                let mut i: usize = 0;
                assert(children.take(0) =~= Seq::empty());
                assert(nodes_behind(filtered@) =~= Seq::empty());
                proof {
                    reveal(Seq::filter);
                }
                while i < contents.len()
                    invariant
                        i <= contents.len(),
                        children == nodes_of(contents@),
                        nodes_behind(filtered@) == children.take(i as int).filter(
                            larger_than(size_min as nat),
                        ),
                    decreases contents.len() - i,
                {
                    let dir = &contents[i];
                    proof {
                        let before = children.take(i as int);
                        assert(children.take(i + 1) =~= before.push(children[i as int]));
                        before.lemma_filter_push(children[i as int], larger_than(size_min as nat));
                    }
                    let ghost old_filtered = filtered@;
                    if dir.size > size_min {
                        filtered.push(dir);
                        assert(nodes_behind(filtered@) =~= nodes_behind(old_filtered).push(dir@));
                    }
                    i += 1;
                }
                assert(children.take(i as int) =~= children);
                if filtered.len() == 0 {
                    None
                } else {
                    Some(filtered)
                }
            },
        }
    }

    /// Whether every child's path in the tree is its parent's path and one more
    /// component, and no two children of one directory have the same path.
    pub fn paths_nest(&self) -> (nest: bool)
        ensures
            nest == self@.nested(),
        decreases self,
    {
        match &self.contents {
            None => true,
            Some(contents) => {
                proof {
                    lemma_view_of_contents(*self);
                }
                let ghost children = nodes_of(contents@);
                let mut names: StringHashMap<()> = StringHashMap::new();
                let mut i: usize = 0;
                while i < contents.len()
                    invariant
                        i <= contents.len(),
                        self.contents == Some(*contents),
                        children == nodes_of(contents@),
                        self@.contents == Some(children),
                        forall|k: int|
                            0 <= k < i ==> extends((#[trigger] children[k]).path, self@.path),
                        forall|k: int, l: int|
                            0 <= k < l < i ==> (#[trigger] children[k]).path
                                != (#[trigger] children[l]).path,
                        forall|k: int| 0 <= k < i ==> (#[trigger] children[k]).nested(),
                        forall|k: int|
                            0 <= k < i ==> is_name((#[trigger] children[k]).path.last()),
                        forall|k: int|
                            0 <= k < i ==> names@.contains_key(
                                (#[trigger] children[k]).path.last(),
                            ),
                        forall|name: Seq<char>| #[trigger]
                            names@.contains_key(name) ==> exists|k: int|
                                0 <= k < i && (#[trigger] children[k]).path.last() == name,
                    decreases contents.len() - i,
                {
                    let child = &contents[i];
                    assert(children[i as int] == child@);
                    if !self.path.is_parent_of(&child.path) {
                        return false;
                    }
                    let name = match child.path.file_name() {
                        Some(name) => name,
                        None => {
                            assert(!is_name(children[i as int].path.last()));
                            return false;
                        },
                    };
                    if names.contains_key(name) {
                        proof {
                            let k = choose|k: int|
                                0 <= k < i && (#[trigger] children[k]).path.last() == name@;
                            let twin = children[k].path;
                            assert(extends(twin, self@.path));
                            assert(twin =~= twin.drop_last().push(twin.last()));
                            let own = child@.path;
                            assert(own =~= own.drop_last().push(own.last()));
                            assert(children[k].path == children[i as int].path);
                        }
                        return false;
                    }
                    names.insert(name.to_owned(), ());
                    if !child.paths_nest() {
                        return false;
                    }
                    i += 1;
                }
                true
            },
        }
    }

    /// Sorts the children of every directory of the tree by size, largest
    /// first; children of one size keep their order.
    pub fn sort_by_size(&mut self)
        ensures
            final(self)@ == sorted_tree(old(self)@),
            ordered(final(self)@),
            old(self)@.aggregated() ==> final(self)@.aggregated(),
            old(self)@.nested() ==> final(self)@.nested(),
            old(self)@.files_are_leaves() ==> final(self)@.files_are_leaves(),
        decreases *old(self),
    {
        proof {
            lemma_sorted_tree(self@);
            if self.contents is Some {
                lemma_view_of_contents(*self);
            }
        }
        if let Some(contents) = self.contents.take() {
            let ghost before = contents@;
            let mut contents = contents;
            let mut i: usize = 0;
            while i < contents.len()
                invariant
                    i <= contents.len(),
                    contents.len() == before.len(),
                    old(self).contents is Some,
                    old(self).contents->0@ == before,
                    forall|j: int|
                        0 <= j < i ==> (#[trigger] contents@[j])@ == sorted_tree(before[j]@),
                    forall|j: int| i <= j < contents.len() ==> contents@[j] == before[j],
                decreases contents.len() - i,
            {
                contents[i].sort_by_size();
                i += 1;
            }
            assert(nodes_of(contents@) =~= each_sorted(nodes_of(before)));
            let sorted = sort_dirs(contents);
            self.contents = Some(sorted);
            proof {
                lemma_view_of_contents(*self);
            }
        }
    }
}

} // verus!
