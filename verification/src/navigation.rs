//! The state of the menu as a mathematical value, its steps, and what holds of them.

use crate::path::{extends, has_name, is_name};
use crate::tree::{
    is_child_of, is_lineage, lemma_filter_size, lemma_find_parent, lemma_find_self,
    lemma_lineage_paths, Node,
};
use vstd::prelude::*;

verus! {

/// Entries of this size in bytes and smaller ones are not listed.
pub const SIZE_FILTER_MIN: u64 = 1000000;

/// The rows of the terminal in which no entry is listed.
pub const CHROME_ROWS: u16 = 3;

/// The first and the last index of the entries that are listed, for the cursor
/// at `cursor` of `len` entries and room for `room` entries and one more.
///
/// Near the start of the list these are the first entries. Further down the
/// cursor stands in the middle, as long as more entries follow it than half
/// the room; then the last entries are listed, or all of them where they fit.
/// The bounds may reach past the end of the list, and do so for an empty list.
pub open spec fn index_bounds(cursor: nat, len: nat, room: nat) -> (nat, nat) {
    let last = if len > 0 {
        (len - 1) as nat
    } else {
        0
    };
    let half = room / 2;
    if cursor <= half {
        (0, room)
    } else if last > cursor + half {
        ((cursor - half - 1) as nat, cursor + half)
    } else if last > room {
        ((last - room) as nat, last)
    } else {
        (0, last)
    }
}

/// The entry under the cursor is among those that are listed.
pub proof fn lemma_cursor_is_listed(cursor: nat, len: nat, room: nat)
    requires
        cursor < len || cursor == 0,
    ensures
        index_bounds(cursor, len, room).0 <= cursor <= index_bounds(cursor, len, room).1,
{
}

/// What the menu lists of `node`: its children above the threshold.
pub open spec fn listing(node: Node) -> Option<Seq<Node>> {
    node.filter_size(SIZE_FILTER_MIN as nat)
}

/// The entries that the menu lists of `node`: none where it has no listing.
pub open spec fn listed(node: Node) -> Seq<Node> {
    match listing(node) {
        Some(kept) => kept,
        None => Seq::empty(),
    }
}

/// The state of the menu.
///
/// - `root`: the scanned tree
/// - `selected`: the directory that is shown
/// - `filtered`: the children of `selected` that are listed
/// - `cursor`: the index in `filtered` of the entry under the cursor
/// - `crumbs`: where the cursor stood in each directory that was entered
///   on the way down to `selected`
pub ghost struct MenuState {
    pub root: Node,
    pub selected: Node,
    pub filtered: Seq<Node>,
    pub cursor: nat,
    pub crumbs: Seq<nat>,
}

impl MenuState {
    /// The state in which a menu on `root` starts: `root` is shown, with
    /// nothing listed where it has no listing.
    pub open spec fn initial(root: Node) -> MenuState {
        MenuState {
            root,
            selected: root,
            filtered: listed(root),
            cursor: 0,
            crumbs: Seq::empty(),
        }
    }

    /// The cursor one entry up; from the first entry to the last. It stays
    /// where nothing is listed.
    pub open spec fn move_up(self) -> MenuState {
        MenuState {
            cursor: if self.cursor > 0 {
                (self.cursor - 1) as nat
            } else if self.filtered.len() > 0 {
                (self.filtered.len() - 1) as nat
            } else {
                0
            },
            ..self
        }
    }

    /// The cursor one entry down; from the last entry to the first. It stays
    /// where nothing is listed.
    pub open spec fn move_down(self) -> MenuState {
        MenuState {
            cursor: if self.cursor + 1 < self.filtered.len() {
                self.cursor + 1
            } else {
                0
            },
            ..self
        }
    }

    /// Whether the entry under the cursor can be entered: there is one, and it
    /// is a directory that was read and has a child above the threshold.
    pub open spec fn enters(self) -> bool {
        self.cursor < self.filtered.len() && listing(self.filtered[self.cursor as int]) is Some
    }

    /// Into the entry under the cursor, where it can be entered; else as before.
    pub open spec fn select(self) -> MenuState {
        if self.enters() {
            let item = self.filtered[self.cursor as int];
            MenuState {
                root: self.root,
                selected: item,
                filtered: listed(item),
                cursor: 0,
                crumbs: self.crumbs.push(self.cursor),
            }
        } else {
            self
        }
    }

    /// To the directory found for the path of the one that is shown, with the
    /// cursor where it last stood there; on the first entry where nothing is
    /// remembered. The directory that is shown stays where none is found.
    pub open spec fn back(self) -> MenuState {
        let found = match self.root.find(self.selected.path) {
            Some(found) => found,
            None => self.selected,
        };
        MenuState {
            root: self.root,
            selected: found,
            filtered: listed(found),
            cursor: if self.crumbs.len() > 0 {
                self.crumbs.last()
            } else {
                0
            },
            crumbs: if self.crumbs.len() > 0 {
                self.crumbs.drop_last()
            } else {
                self.crumbs
            },
        }
    }

    /// Whether `chain` is the way from the root down to the directory that is
    /// shown, for each directory above it the remembered cursor, which stands
    /// on the entry that was entered, and what is listed is the listing of
    /// the directory that is shown, the cursor on one of its entries. Nothing
    /// may be listed of the root alone; the cursor is then 0.
    pub open spec fn follows(self, chain: Seq<Node>) -> bool {
        &&& is_lineage(self.root, chain)
        &&& chain.len() == self.crumbs.len() + 1
        &&& chain.last() == self.selected
        &&& forall|k: int|
            0 <= k < self.crumbs.len() ==> (#[trigger] self.crumbs[k]) < listed(chain[k]).len()
                && listed(chain[k])[self.crumbs[k] as int] == chain[k + 1]
        &&& self.filtered == listed(self.selected)
        &&& if self.filtered.len() == 0 {
            self.cursor == 0 && chain.len() == 1
        } else {
            self.cursor < self.filtered.len()
        }
    }

    /// The state is one that a menu on a tree with nested paths can be in.
    pub open spec fn well_formed(self) -> bool {
        &&& self.root.nested()
        &&& exists|chain: Seq<Node>| self.follows(chain)
    }

    /// `self` after `count` times `select`.
    pub open spec fn select_times(self, count: nat) -> MenuState
        decreases count,
    {
        if count == 0 {
            self
        } else {
            self.select().select_times((count - 1) as nat)
        }
    }

    /// `self` after `count` times `back`.
    pub open spec fn back_times(self, count: nat) -> MenuState
        decreases count,
    {
        if count == 0 {
            self
        } else {
            self.back().back_times((count - 1) as nat)
        }
    }

    /// Whether each of `count` times `select` from `self` on enters a directory.
    pub open spec fn enters_times(self, count: nat) -> bool
        decreases count,
    {
        count > 0 ==> self.enters() && self.select().enters_times((count - 1) as nat)
    }
}

/// Each entry that is listed of a directory is one of its children and above
/// the threshold; there is one exactly where the directory has a listing.
pub proof fn lemma_listed(node: Node)
    ensures
        listed(node).len() > 0 <==> listing(node) is Some,
        forall|i: int|
            0 <= i < listed(node).len() ==> is_child_of(#[trigger] listed(node)[i], node),
        forall|i: int|
            0 <= i < listed(node).len() ==> (#[trigger] listed(node)[i]).size > SIZE_FILTER_MIN,
{
    lemma_filter_size(node, SIZE_FILTER_MIN as nat);
}

/// In a well-formed state every entry that is listed has a name.
pub proof fn lemma_listed_have_names(state: MenuState)
    requires
        state.well_formed(),
    ensures
        forall|i: int|
            0 <= i < state.filtered.len() ==> has_name((#[trigger] state.filtered[i]).path),
{
    let chain = choose|chain: Seq<Node>| state.follows(chain);
    lemma_lineage_paths(state.root, chain, chain.len() - 1);
    lemma_listed(state.selected);
    let children = state.selected.contents->0;
    assert forall|i: int| 0 <= i < state.filtered.len() implies has_name(
        (#[trigger] state.filtered[i]).path,
    ) by {
        assert(is_child_of(state.filtered[i], state.selected));
        let j = choose|j: int| 0 <= j < children.len() && children[j] == state.filtered[i];
        assert(extends(children[j].path, state.selected.path));
        assert(is_name(children[j].path.last()));
    }
}

/// The state in which a menu starts is well formed, whatever the root lists.
pub proof fn lemma_initial_well_formed(root: Node)
    requires
        root.nested(),
    ensures
        MenuState::initial(root).well_formed(),
{
    assert(MenuState::initial(root).follows(seq![root]));
}

/// Moving the cursor keeps the state well formed.
pub proof fn lemma_move_well_formed(state: MenuState)
    requires
        state.well_formed(),
    ensures
        state.move_up().well_formed(),
        state.move_down().well_formed(),
{
    let chain = choose|chain: Seq<Node>| state.follows(chain);
    assert(state.move_up().follows(chain));
    assert(state.move_down().follows(chain));
}

/// Entering the entry under the cursor keeps the state well formed.
pub proof fn lemma_select_well_formed(state: MenuState)
    requires
        state.well_formed(),
    ensures
        state.select().well_formed(),
{
    if state.enters() {
        let chain = choose|chain: Seq<Node>| state.follows(chain);
        lemma_select_follows(state, chain);
    }
}

proof fn lemma_select_follows(state: MenuState, chain: Seq<Node>)
    requires
        state.follows(chain),
        state.enters(),
    ensures
        state.select().follows(chain.push(state.filtered[state.cursor as int])),
{
    let item = state.filtered[state.cursor as int];
    let longer = chain.push(item);
    let after = state.select();
    lemma_listed(state.selected);
    lemma_listed(item);
    assert forall|k: int| 1 <= k < longer.len() implies is_child_of(
        #[trigger] longer[k],
        longer[k - 1],
    ) by {
        if k < chain.len() {
            assert(is_child_of(chain[k], chain[k - 1]));
        }
    }
    assert forall|k: int| 0 <= k < after.crumbs.len() implies (#[trigger] after.crumbs[k])
        < listed(longer[k]).len() by {
        if k < state.crumbs.len() {
            assert(state.crumbs[k] < listed(chain[k]).len());
        }
    }
}

proof fn lemma_back_follows(state: MenuState, chain: Seq<Node>)
    requires
        state.root.nested(),
        state.follows(chain),
    ensures
        chain.len() == 1 ==> state.back().follows(chain),
        chain.len() == 1 ==> state.back().selected == state.root,
        chain.len() > 1 ==> state.back().follows(chain.drop_last()),
        chain.len() > 1 ==> state.back().selected == chain[chain.len() - 2],
{
    let after = state.back();
    if chain.len() == 1 {
        let root = state.root;
        if root.contents is Some {
            lemma_find_self(root);
        } else if root.path.len() > 0 {
            assert(root.path.drop_last().len() != root.path.len());
        }
    } else {
        lemma_find_parent(state.root, chain);
        let shorter = chain.drop_last();
        assert forall|k: int| 1 <= k < shorter.len() implies is_child_of(
            #[trigger] shorter[k],
            shorter[k - 1],
        ) by {
            assert(is_child_of(chain[k], chain[k - 1]));
        }
        assert forall|k: int| 0 <= k < after.crumbs.len() implies (#[trigger] after.crumbs[k])
            < listed(shorter[k]).len() by {
            assert(state.crumbs[k] < listed(chain[k]).len());
        }
        assert(state.crumbs[state.crumbs.len() - 1] < listed(chain[chain.len() - 2]).len());
    }
}

/// Going back keeps the state well formed; from the root it stays at the root.
pub proof fn lemma_back_well_formed(state: MenuState)
    requires
        state.well_formed(),
    ensures
        state.back().well_formed(),
        state.crumbs.len() == 0 ==> state.back().selected == state.root,
{
    let chain = choose|chain: Seq<Node>| state.follows(chain);
    lemma_back_follows(state, chain);
}

/// Going back from a directory that was just entered gives the state from
/// before it was entered.
pub proof fn lemma_back_undoes_select(state: MenuState)
    requires
        state.well_formed(),
        state.enters(),
    ensures
        state.select().back() == state,
{
    let chain = choose|chain: Seq<Node>| state.follows(chain);
    let item = state.filtered[state.cursor as int];
    lemma_select_follows(state, chain);
    let longer = chain.push(item);
    lemma_back_follows(state.select(), longer);
    assert(longer[longer.len() - 2] == state.selected);
    assert(state.crumbs.push(state.cursor).drop_last() =~= state.crumbs);
}

/// Entering directories any number of times and going back as many times
/// gives the state from before, where each of the steps down entered one.
pub proof fn lemma_round_trip(state: MenuState, count: nat)
    requires
        state.well_formed(),
        state.enters_times(count),
    ensures
        state.select_times(count).back_times(count) == state,
    decreases count,
{
    if count > 0 {
        let below = state.select();
        let rest = (count - 1) as nat;
        lemma_select_well_formed(state);
        lemma_round_trip(below, rest);
        lemma_back_times_last(below.select_times(rest), rest);
        lemma_select_times_well_formed(below, rest);
        lemma_back_undoes_select(state);
        assert(state.select_times(count) == below.select_times(rest));
    }
}

proof fn lemma_select_times_well_formed(state: MenuState, count: nat)
    requires
        state.well_formed(),
    ensures
        state.select_times(count).well_formed(),
    decreases count,
{
    if count > 0 {
        lemma_select_well_formed(state);
        lemma_select_times_well_formed(state.select(), (count - 1) as nat);
    }
}

proof fn lemma_back_times_last(state: MenuState, count: nat)
    ensures
        state.back_times(count + 1) == state.back_times(count).back(),
    decreases count,
{
    if count > 0 {
        lemma_back_times_last(state.back(), (count - 1) as nat);
    } else {
        assert(state.back().back_times(0) == state.back());
    }
}

} // verus!
