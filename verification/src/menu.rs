//! The menu: a cursor over the scanned tree.

use crate::navigation::{
    index_bounds, lemma_back_well_formed, lemma_initial_well_formed, lemma_listed_have_names,
    lemma_move_well_formed, lemma_select_well_formed, listed, MenuState, CHROME_ROWS,
    SIZE_FILTER_MIN,
};
use crate::path::{has_name, text_of};
use crate::structs::{nodes_behind, Dir, SizeFormat};
use crate::text::{padded, push_fixed2, push_padded};
use crate::tree::Node;
use vstd::prelude::*;
use vstd::utf8::encode_utf8;

verus! {

/// The colours in which the menu is drawn.
#[derive(Debug, Clone, Copy, PartialEq, Eq)]
pub enum Color {
    Red,
    White,
}

/// The width that names are padded to where none is given.
pub const NAME_WIDTH: usize = 25;

/// The colour of the entry of `node`: red for a file, white for a directory.
pub open spec fn color_of(node: Node) -> Color {
    if node.is_file {
        Color::Red
    } else {
        Color::White
    }
}

/// The entry of `node`: its name, padded to `width` characters, and its size.
pub open spec fn menu_line(node: Node, size_fmt: SizeFormat, width: nat) -> Seq<char> {
    padded(node.path.last(), width) + " - "@ + size_fmt.shown(node.size)
}

/// The number of bytes that the name of `node` takes.
pub open spec fn name_bytes(node: Node) -> nat {
    encode_utf8(node.path.last()).len()
}

/// The largest number of bytes that the name of one of `nodes` takes.
pub open spec fn max_name_bytes(nodes: Seq<Node>) -> nat
    decreases nodes.len(),
{
    if nodes.len() == 0 {
        0
    } else {
        let before = max_name_bytes(nodes.drop_last());
        if name_bytes(nodes.last()) > before {
            name_bytes(nodes.last())
        } else {
            before
        }
    }
}

impl Dir {
    /// The entry of `self` in the menu: its name, padded to `max_len`
    /// characters, and its size.
    pub fn display_menu(&self, size_fmt: &SizeFormat, max_len: Option<usize>) -> (line: String)
        requires
            has_name(self@.path),
        ensures
            line@ == menu_line(
                self@,
                *size_fmt,
                match max_len {
                    Some(width) => width as nat,
                    None => NAME_WIDTH as nat,
                },
            ),
    {
        let (formated_size, format_str) = self.size_formated(*size_fmt);
        let max_len = max_len.unwrap_or(NAME_WIDTH);
        let mut line = String::new();
        push_padded(&mut line, self.name(), max_len);
        line.append(" - ");
        push_fixed2(&mut line, formated_size);
        line.append(" ");
        line.append(format_str);
        assert(line@ =~= menu_line(self@, *size_fmt, max_len as nat));
        line
    }

    /// The colour of the entry of `self` in the menu.
    pub fn color(&self) -> (color: Color)
        ensures
            color == color_of(self@),
    {
        if self.is_file {
            Color::Red
        } else {
            Color::White
        }
    }
}

/// What the user asks of the menu.
#[derive(Debug, Clone, Copy, PartialEq, Eq)]
pub enum Event {
    MoveUp,
    MoveDown,
    Select,
    Back,
    Exit,
    OpenInFileManager,
}

/// A key of the keyboard.
#[derive(Debug, Clone, Copy, PartialEq, Eq)]
pub enum Key {
    Esc,
    Up,
    Down,
    Enter,
    Right,
    Backspace,
    Left,
    Char(char),
    Other,
}

/// What `key` asks of the menu, if anything: only a key that is pressed asks for something.
pub open spec fn event_of(key: Key, pressed: bool) -> Option<Event> {
    if !pressed {
        None
    } else {
        match key {
            Key::Esc => Some(Event::Exit),
            Key::Up => Some(Event::MoveUp),
            Key::Down => Some(Event::MoveDown),
            Key::Enter => Some(Event::Select),
            Key::Right => Some(Event::Select),
            Key::Backspace => Some(Event::Back),
            Key::Left => Some(Event::Back),
            Key::Char(c) => if c == 'o' {
                Some(Event::OpenInFileManager)
            } else {
                None
            },
            Key::Other => None,
        }
    }
}

impl Event {
    /// What `key` asks of the menu, if anything.
    pub fn from_key(key: Key, pressed: bool) -> (event: Option<Event>)
        ensures
            event == event_of(key, pressed),
    {
        if !pressed {
            return None;
        }
        match key {
            Key::Esc => Some(Event::Exit),
            Key::Up => Some(Event::MoveUp),
            Key::Down => Some(Event::MoveDown),
            Key::Enter | Key::Right => Some(Event::Select),
            Key::Backspace | Key::Left => Some(Event::Back),
            Key::Char(c) => if c == 'o' {
                Some(Event::OpenInFileManager)
            } else {
                None
            },
            Key::Other => None,
        }
    }
}

/// What is to be done once the menu has taken an event.
#[derive(Debug, Clone, Copy, PartialEq, Eq)]
pub enum Action {
    /// Draw the menu and wait for the next event.
    Draw,
    /// Open the directory that is shown in the file manager, then draw.
    Open,
    /// Leave the menu.
    Quit,
}

/// One entry as it is drawn.
#[derive(Debug, PartialEq, Eq)]
pub struct MenuRow {
    /// Whether the cursor is on the entry.
    pub selected: bool,
    /// The colour of the text.
    pub color: Color,
    /// The name and the size.
    pub text: String,
}

/// Whether `rows` are the entries of `state` from index `first` on, one row
/// each, names padded to `width` characters.
pub open spec fn rows_show(
    rows: Seq<MenuRow>,
    state: MenuState,
    size_fmt: SizeFormat,
    first: int,
    width: nat,
) -> bool {
    forall|k: int|
        0 <= k < rows.len() ==> {
            let item = state.filtered[first + k];
            &&& (#[trigger] rows[k]).selected == (first + k == state.cursor)
            &&& rows[k].color == color_of(item)
            &&& rows[k].text@ == menu_line(item, size_fmt, width)
        }
}

/// The entries that the menu lists of `dir`: its children above the
/// threshold, and none where there is no such child.
fn entries_of<'a>(dir: &'a Dir) -> (entries: Vec<&'a Dir>)
    ensures
        nodes_behind(entries@) == listed(dir@),
{
    match dir.filter_size(SIZE_FILTER_MIN) {
        Some(entries) => entries,
        None => {
            let entries: Vec<&'a Dir> = Vec::new();
            assert(nodes_behind(entries@) =~= Seq::<Node>::empty());
            entries
        },
    }
}

/// A cursor over a scanned tree: the directory that is shown, its entries
/// above the threshold, and the way back up.
pub struct Menu<'a> {
    root_dir: &'a Dir,
    selected_dir: &'a Dir,
    filtered: Vec<&'a Dir>,
    cursor_pos: usize,
    size_fmt: SizeFormat,
    last_selected: Vec<usize>,
}

impl<'a> View for Menu<'a> {
    type V = MenuState;

    closed spec fn view(&self) -> MenuState {
        MenuState {
            root: self.root_dir@,
            selected: self.selected_dir@,
            filtered: nodes_behind(self.filtered@),
            cursor: self.cursor_pos as nat,
            crumbs: self.last_selected@.map_values(|position: usize| position as nat),
        }
    }
}

impl<'a> Menu<'a> {
    /// The unit in which sizes are shown.
    pub closed spec fn size_format(&self) -> SizeFormat {
        self.size_fmt
    }

    /// The state is one that a menu on a tree with nested paths can be in.
    pub open spec fn well_formed(&self) -> bool {
        self@.well_formed()
    }

    /// A menu on `dir`, which shows `dir` itself, the cursor on its first
    /// entry. Nothing is listed where `dir` is a leaf or has no child above
    /// the threshold.
    pub fn new(dir: &'a mut Dir, size_fmt: SizeFormat) -> (menu: Self)
        requires
            old(dir)@.nested(),
        ensures
            menu@ == MenuState::initial(old(dir)@),
            menu.size_format() == size_fmt,
            menu.well_formed(),
            *final(dir) == *old(dir),
    {
        let dir: &'a Dir = dir;
        let cursor_pos: usize = 0;
        let filtered = entries_of(dir);
        let last_selected: Vec<usize> = Vec::new();
        let menu = Self {
            root_dir: dir,
            selected_dir: dir,
            filtered,
            cursor_pos,
            size_fmt,
            last_selected,
        };
        proof {
            assert(menu@.crumbs =~= Seq::<nat>::empty());
            lemma_initial_well_formed(dir@);
        }
        menu
    }

    /// The directory that is shown.
    pub fn selected(&self) -> (dir: &'a Dir)
        ensures
            dir@ == self@.selected,
    {
        self.selected_dir
    }

    /// The entries that are listed: the children of the directory that is
    /// shown which are above the threshold.
    pub fn listed(&self) -> (dirs: &Vec<&'a Dir>)
        ensures
            nodes_behind(dirs@) == self@.filtered,
    {
        &self.filtered
    }

    /// The index of the entry under the cursor.
    pub fn cursor(&self) -> (index: usize)
        ensures
            index == self@.cursor,
    {
        self.cursor_pos
    }

    /// The path of the directory that is shown, in one line.
    pub fn title(&self) -> (line: String)
        ensures
            line@ == text_of(self@.selected.path),
    {
        self.selected_dir.path.display()
    }

    /// Moves the cursor one entry up; from the first entry to the last. The
    /// cursor stays where nothing is listed.
    pub fn move_up(&mut self)
        requires
            old(self).well_formed(),
        ensures
            final(self)@ == old(self)@.move_up(),
            old(self)@.cursor == 0 && old(self)@.filtered.len() > 0 ==> final(self)@.cursor
                == old(self)@.filtered.len() - 1,
            old(self)@.filtered.len() == 0 ==> final(self)@.cursor == 0,
            final(self).size_format() == old(self).size_format(),
            final(self).well_formed(),
    {
        proof {
            lemma_move_well_formed(self@);
        }
        if self.cursor_pos > 0 {
            self.cursor_pos -= 1;
        } else if self.filtered.len() > 0 {
            self.cursor_pos = self.filtered.len() - 1;
        }
    }

    /// Moves the cursor one entry down; from the last entry to the first. The
    /// cursor stays where nothing is listed.
    pub fn move_down(&mut self)
        requires
            old(self).well_formed(),
        ensures
            final(self)@ == old(self)@.move_down(),
            old(self)@.cursor == old(self)@.filtered.len() - 1 ==> final(self)@.cursor == 0,
            old(self)@.filtered.len() == 0 ==> final(self)@.cursor == 0,
            final(self).size_format() == old(self).size_format(),
            final(self).well_formed(),
    {
        proof {
            lemma_move_well_formed(self@);
        }
        if self.filtered.len() > 0 && self.cursor_pos < self.filtered.len() - 1 {
            self.cursor_pos += 1;
        } else {
            self.cursor_pos = 0;
        }
    }

    /// Enters the entry under the cursor, where there is one and it is a
    /// directory with an entry above the threshold; else nothing changes.
    pub fn select_item(&mut self)
        requires
            old(self).well_formed(),
        ensures
            final(self)@ == old(self)@.select(),
            final(self).size_format() == old(self).size_format(),
            final(self).well_formed(),
    {
        proof {
            lemma_select_well_formed(self@);
        }
        if self.cursor_pos >= self.filtered.len() {
            return ;
        }
        let select: &'a Dir = self.filtered[self.cursor_pos];
        if select.contents.is_none() {
            return ;
        }
        if let Some(filter) = select.filter_size(SIZE_FILTER_MIN) {
            self.selected_dir = select;
            self.filtered = filter;
            self.last_selected.push(self.cursor_pos);
            self.cursor_pos = 0;
            assert(self@.crumbs =~= old(self)@.crumbs.push(old(self)@.cursor));
        }
    }

    /// Goes back to the directory above the one that is shown, the cursor
    /// where it stood there; from the root, to the root.
    pub fn go_back(&mut self)
        requires
            old(self).well_formed(),
        ensures
            final(self)@ == old(self)@.back(),
            old(self)@.crumbs.len() == 0 ==> final(self)@.selected == old(self)@.root,
            final(self).size_format() == old(self).size_format(),
            final(self).well_formed(),
    {
        proof {
            lemma_back_well_formed(self@);
        }
        self.selected_dir = match self.root_dir.try_find(&self.selected_dir.path) {
            Some(found) => found,
            None => self.selected_dir,
        };
        self.filtered = entries_of(self.selected_dir);
        let ghost crumbs = self@.crumbs;
        self.cursor_pos = self.last_selected.pop().unwrap_or(0);
        proof {
            if crumbs.len() > 0 {
                assert(self@.crumbs =~= crumbs.drop_last());
                assert(self@.cursor == crumbs.last());
            } else {
                assert(self@.crumbs =~= crumbs);
            }
        }
    }

    /// The largest number of bytes that the name of a listed entry takes.
    pub fn calculate_max_len(&self) -> (max_len: usize)
        requires
            self.well_formed(),
        ensures
            max_len == max_name_bytes(self@.filtered),
    {
        proof {
            lemma_listed_have_names(self@);
        }
        let mut max_len: usize = 0;
        let mut i: usize = 0;
        assert(self@.filtered.take(0) =~= Seq::empty());
        while i < self.filtered.len()
            invariant
                i <= self.filtered.len(),
                forall|j: int|
                    0 <= j < self@.filtered.len() ==> has_name((#[trigger] self@.filtered[j]).path),
                max_len == max_name_bytes(self@.filtered.take(i as int)),
            decreases self.filtered.len() - i,
        {
            assert(self@.filtered[i as int] == self.filtered@[i as int]@);
            assert(self@.filtered.take(i + 1).drop_last() =~= self@.filtered.take(i as int));
            let l = self.filtered[i].name().as_bytes().len();
            if l > max_len {
                max_len = l;
            }
            i += 1;
        }
        assert(self@.filtered.take(i as int) =~= self@.filtered);
        max_len
    }

    /// The first and the last index of the entries that are listed on a
    /// terminal of `terminal_height` rows. The last index may lie past the end
    /// of the list, and does so where nothing is listed.
    pub fn calculate_index_bounds(&self, terminal_height: u16) -> (bounds: (usize, usize))
        requires
            self.well_formed(),
            terminal_height >= CHROME_ROWS,
        ensures
            bounds.0 == index_bounds(
                self@.cursor,
                self@.filtered.len(),
                (terminal_height - CHROME_ROWS) as nat,
            ).0,
            bounds.1 == index_bounds(
                self@.cursor,
                self@.filtered.len(),
                (terminal_height - CHROME_ROWS) as nat,
            ).1,
            bounds.0 <= self@.cursor <= bounds.1,
    {
        let terminal_height = (terminal_height - CHROME_ROWS) as usize;
        let half = terminal_height / 2;
        if self.cursor_pos <= half {
            return (0, terminal_height);
        }
        let items_len = self.filtered.len() - 1;
        if items_len - self.cursor_pos > half {
            (self.cursor_pos - half - 1, self.cursor_pos + half)
        } else if items_len > terminal_height {
            (self.cursor_pos - (terminal_height - (items_len - self.cursor_pos)), items_len)
        } else {
            (0, items_len)
        }
    }

    /// The entries that are listed on a terminal of `terminal_height` rows,
    /// as they are drawn, first to last: those within the bounds that the
    /// list has. There is no row where nothing is listed.
    pub fn rows(&self, terminal_height: u16) -> (rows: Vec<MenuRow>)
        requires
            self.well_formed(),
            terminal_height >= CHROME_ROWS,
        ensures
            self@.filtered.len() == 0 ==> rows@.len() == 0,
            ({
                let bounds = index_bounds(
                    self@.cursor,
                    self@.filtered.len(),
                    (terminal_height - CHROME_ROWS) as nat,
                );
                let stop = if bounds.1 < self@.filtered.len() {
                    bounds.1 + 1
                } else {
                    self@.filtered.len()
                };
                &&& rows@.len() == stop - bounds.0
                &&& rows_show(
                    rows@,
                    self@,
                    self.size_format(),
                    bounds.0 as int,
                    max_name_bytes(self@.filtered),
                )
            }),
    {
        proof {
            lemma_listed_have_names(self@);
        }
        let (start_index, end_index) = self.calculate_index_bounds(terminal_height);
        let max_str_len = self.calculate_max_len();
        let stop = if end_index < self.filtered.len() {
            end_index + 1
        } else {
            self.filtered.len()
        };
        let mut rows: Vec<MenuRow> = Vec::new();
        let mut i: usize = start_index;
        while i < stop
            invariant
                start_index <= i <= stop || (stop == 0 && i == 0),
                stop <= self.filtered.len(),
                rows@.len() == i - start_index,
                forall|j: int|
                    0 <= j < self@.filtered.len() ==> has_name((#[trigger] self@.filtered[j]).path),
                rows_show(
                    rows@,
                    self@,
                    self.size_format(),
                    start_index as int,
                    max_str_len as nat,
                ),
            decreases stop - i,
        {
            let item = self.filtered[i];
            assert(self@.filtered[i as int] == item@);
            let row = MenuRow {
                selected: i == self.cursor_pos,
                color: item.color(),
                text: item.display_menu(&self.size_fmt, Some(max_str_len)),
            };
            rows.push(row);
            i += 1;
        }
        rows
    }

    /// Takes `event` and says what is to be done next.
    pub fn apply(&mut self, event: Event) -> (action: Action)
        requires
            old(self).well_formed(),
        ensures
            final(self)@ == match event {
                Event::MoveUp => old(self)@.move_up(),
                Event::MoveDown => old(self)@.move_down(),
                Event::Select => old(self)@.select(),
                Event::Back => old(self)@.back(),
                Event::Exit => old(self)@,
                Event::OpenInFileManager => old(self)@,
            },
            action == match event {
                Event::Exit => Action::Quit,
                Event::OpenInFileManager => Action::Open,
                _ => Action::Draw,
            },
            final(self).size_format() == old(self).size_format(),
            final(self).well_formed(),
    {
        match event {
            Event::MoveUp => {
                self.move_up();
                Action::Draw
            },
            Event::MoveDown => {
                self.move_down();
                Action::Draw
            },
            Event::Select => {
                self.select_item();
                Action::Draw
            },
            Event::Back => {
                self.go_back();
                Action::Draw
            },
            Event::Exit => Action::Quit,
            Event::OpenInFileManager => Action::Open,
        }
    }
}

} // verus!
