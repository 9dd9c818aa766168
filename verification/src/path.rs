//! Paths as sequences of components.

use vstd::prelude::*;

verus! {

/// The path without its last component; none for the empty path.
pub open spec fn parent_of(path: Seq<Seq<char>>) -> Option<Seq<Seq<char>>> {
    if path.len() == 0 {
        None
    } else {
        Some(path.drop_last())
    }
}

/// Whether `child` is `parent` with one more component.
pub open spec fn extends(child: Seq<Seq<char>>, parent: Seq<Seq<char>>) -> bool {
    parent_of(child) == Some(parent)
}

/// Whether `component` names a file or a directory: it is none of `/`, `.` and `..`.
pub open spec fn is_name(component: Seq<char>) -> bool {
    component != seq!['/'] && component != seq!['.'] && component != seq!['.', '.']
}

/// Whether `path` ends in a name.
pub open spec fn has_name(path: Seq<Seq<char>>) -> bool {
    path.len() > 0 && is_name(path.last())
}

/// Whether a separator stands between the text so far and the next component.
pub open spec fn needs_separator(text: Seq<char>) -> bool {
    text.len() > 0 && text.last() != '/'
}

/// The components of `path` in one line, a `/` between two of them unless the
/// text before already ends in one.
pub open spec fn text_of(path: Seq<Seq<char>>) -> Seq<char>
    decreases path.len(),
{
    if path.len() == 0 {
        Seq::empty()
    } else {
        let before = text_of(path.drop_last());
        if needs_separator(before) {
            before + seq!['/'] + path.last()
        } else {
            before + path.last()
        }
    }
}

/// A path of the scanned tree: its components, outermost first.
#[derive(Debug, PartialEq, Eq)]
pub struct DirPath {
    pub parts: Vec<String>,
}

impl View for DirPath {
    type V = Seq<Seq<char>>;

    open spec fn view(&self) -> Seq<Seq<char>> {
        Seq::new(self.parts@.len(), |i: int| self.parts@[i]@)
    }
}

/// Whether `component` names a file or a directory.
pub fn names_an_entry(component: &str) -> (named: bool)
    ensures
        named == is_name(component@),
{
    let length = component.unicode_len();
    if length == 1 {
        let only = component.get_char(0);
        assert(component@ =~= seq![only]);
        only != '/' && only != '.'
    } else if length == 2 {
        let first = component.get_char(0);
        let second = component.get_char(1);
        assert(component@ =~= seq![first, second]);
        !(first == '.' && second == '.')
    } else {
        true
    }
}

impl Clone for DirPath {
    /// A path of the same components.
    fn clone(&self) -> (copy: DirPath)
        ensures
            copy@ == self@,
    {
        let mut parts: Vec<String> = Vec::new();
        let mut i: usize = 0;
        while i < self.parts.len()
            invariant
                i <= self.parts.len(),
                parts@.len() == i,
                forall|j: int| 0 <= j < i ==> parts@[j]@ == self@[j],
            decreases self.parts.len() - i,
        {
            parts.push(self.parts[i].clone());
            i += 1;
        }
        let copy = DirPath { parts };
        assert(copy@ =~= self@);
        copy
    }
}

impl DirPath {
    /// The path made of `parts`.
    pub fn new(parts: Vec<String>) -> (path: DirPath)
        ensures
            path.parts == parts,
    {
        DirPath { parts }
    }

    /// The number of components.
    pub fn len(&self) -> (n: usize)
        ensures
            n == self@.len(),
    {
        self.parts.len()
    }

    /// Whether `self` and `other` have the same components.
    pub fn same_as(&self, other: &DirPath) -> (same: bool)
        ensures
            same == (self@ == other@),
    {
        if self.parts.len() != other.parts.len() {
            assert(self@.len() != other@.len());
            return false;
        }
        let mut i: usize = 0;
        while i < self.parts.len()
            invariant
                i <= self.parts.len(),
                self.parts.len() == other.parts.len(),
                forall|j: int| 0 <= j < i ==> self@[j] == other@[j],
            decreases self.parts.len() - i,
        {
            if self.parts[i] != other.parts[i] {
                assert(self@[i as int] != other@[i as int]);
                return false;
            }
            i += 1;
        }
        assert(self@ =~= other@);
        true
    }

    /// Whether the components of `base` are the first components of `self`.
    pub fn starts_with(&self, base: &DirPath) -> (prefixed: bool)
        ensures
            prefixed == base@.is_prefix_of(self@),
    {
        if base.parts.len() > self.parts.len() {
            return false;
        }
        let mut i: usize = 0;
        while i < base.parts.len()
            invariant
                i <= base.parts.len() <= self.parts.len(),
                forall|j: int| 0 <= j < i ==> self@[j] == base@[j],
            decreases base.parts.len() - i,
        {
            if self.parts[i] != base.parts[i] {
                assert(self@.subrange(0, base@.len() as int)[i as int] != base@[i as int]);
                return false;
            }
            i += 1;
        }
        assert(base@ =~= self@.subrange(0, base@.len() as int));
        true
    }

    /// Whether `self` is `child` without its last component.
    pub fn is_parent_of(&self, child: &DirPath) -> (is_parent: bool)
        ensures
            is_parent == extends(child@, self@),
    {
        if child.parts.len() == 0 || child.parts.len() - 1 != self.parts.len() {
            assert(child@.len() > 0 ==> child@.drop_last().len() != self@.len());
            return false;
        }
        let prefixed = child.starts_with(self);
        assert(prefixed ==> self@ =~= child@.drop_last());
        prefixed
    }

    /// The last component, where the path ends in a name.
    pub fn file_name(&self) -> (name: Option<&str>)
        ensures
            name is Some <==> has_name(self@),
            name matches Some(n) ==> n@ == self@.last(),
    {
        if self.parts.len() == 0 {
            return None;
        }
        let last = self.parts[self.parts.len() - 1].as_str();
        if names_an_entry(last) {
            Some(last)
        } else {
            None
        }
    }

    /// The path in one line.
    pub fn display(&self) -> (text: String)
        ensures
            text@ == text_of(self@),
    {
        let mut text = String::new();
        let mut separate = false;
        let mut i: usize = 0;
        while i < self.parts.len()
            invariant
                i <= self.parts.len(),
                text@ == text_of(self@.take(i as int)),
                separate == needs_separator(text@),
            decreases self.parts.len() - i,
        {
            let part = self.parts[i].as_str();
            proof {
                reveal_strlit("/");
                assert(self@.take(i + 1).drop_last() =~= self@.take(i as int));
                assert(self@.take(i + 1).last() == part@);
            }
            if separate {
                text.append("/");
            }
            text.append(part);
            let n = part.unicode_len();
            separate = n > 0 && part.get_char(n - 1) != '/';
            i += 1;
        }
        assert(self@.take(i as int) =~= self@);
        text
    }

    /// `self` with `name` as one more component.
    pub fn join(&self, name: &str) -> (child: DirPath)
        ensures
            child@ == self@.push(name@),
    {
        let mut child = self.clone();
        child.parts.push(name.to_owned());
        assert(child@ =~= self@.push(name@));
        child
    }
}

} // verus!
