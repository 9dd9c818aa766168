use dirsize::menu::{Action, Color, Event, Key, Menu, MenuRow, NAME_WIDTH};
use dirsize::navigation::{CHROME_ROWS, SIZE_FILTER_MIN};
use dirsize::path::DirPath;
use dirsize::structs::{Dir, SizeFormat};

fn plain_file(parent: &DirPath, name: &str, size: u64) -> Dir {
    Dir::new(size, parent.join(name), None, true)
}

fn dir_with(path: &DirPath, children: Vec<Dir>) -> Dir {
    let size = children.iter().map(|child| child.size).sum();
    Dir::new(size, path.clone(), Some(children), false)
}

/// `.` with `videos/` (two large files and `clips/`), `music/` (two files
/// under the threshold), `big.iso` and `small.txt`, sorted by size.
fn media_tree() -> Dir {
    let root = DirPath::new(vec![".".to_string()]);
    let videos = root.join("videos");
    let clips = videos.join("clips");
    let music = root.join("music");
    let mut tree = dir_with(
        &root,
        vec![
            plain_file(&root, "small.txt", 100),
            dir_with(
                &music,
                vec![plain_file(&music, "s1.ogg", 900_000), plain_file(&music, "s2.ogg", 800_000)],
            ),
            plain_file(&root, "big.iso", 8_000_000),
            dir_with(
                &videos,
                vec![
                    plain_file(&videos, "notes.txt", 500),
                    plain_file(&videos, "b.mkv", 3_000_000),
                    dir_with(
                        &clips,
                        vec![
                            plain_file(&clips, "tiny.txt", 10),
                            plain_file(&clips, "c.mp4", 2_000_000),
                        ],
                    ),
                    plain_file(&videos, "a.mkv", 4_000_000),
                ],
            ),
        ],
    );
    tree.sort_by_size();
    tree
}

/// `.` with `count` files above the threshold, the largest first.
fn long_tree(count: u64) -> Dir {
    let root = DirPath::new(vec![".".to_string()]);
    let files = (0..count)
        .map(|index| plain_file(&root, &format!("f{:02}", index), 9_000_000 - index))
        .collect();
    dir_with(&root, files)
}

fn listed_names<'a>(menu: &Menu<'a>) -> Vec<&'a str> {
    menu.listed().iter().map(|dir| dir.name()).collect()
}

fn row(selected: bool, color: Color, text: &str) -> MenuRow {
    MenuRow { selected, color, text: text.to_string() }
}

#[test]
fn the_threshold_is_a_million_bytes() {
    assert_eq!(SIZE_FILTER_MIN, 1000000);
    assert_eq!(CHROME_ROWS, 3);
    assert_eq!(NAME_WIDTH, 25);
}

#[test]
fn new_shows_the_root_with_the_cursor_on_the_first_entry() {
    let mut tree = media_tree();
    assert!(tree.paths_nest());
    let menu = Menu::new(&mut tree, SizeFormat::MEGABYTES);
    assert_eq!(menu.selected().path, DirPath::new(vec![".".to_string()]));
    assert_eq!(menu.cursor(), 0);
    assert_eq!(listed_names(&menu), vec!["videos", "big.iso", "music"]);
    assert_eq!(menu.title(), ".");
}

#[test]
fn new_starts_with_nothing_listed_on_a_root_that_could_not_be_read() {
    let mut tree = Dir::new(0, DirPath::new(vec!["root".to_string()]), None, false);
    let menu = Menu::new(&mut tree, SizeFormat::MEGABYTES);
    assert_eq!(menu.selected().path, DirPath::new(vec!["root".to_string()]));
    assert_eq!(menu.selected().contents, None);
    assert!(menu.listed().is_empty());
    assert_eq!(menu.cursor(), 0);
    assert_eq!(menu.title(), "root");
}

#[test]
fn new_starts_with_nothing_listed_on_a_root_without_a_large_entry() {
    let root = DirPath::new(vec![".".to_string()]);
    let mut tree = dir_with(
        &root,
        vec![plain_file(&root, "a", 1_000_000), plain_file(&root, "b", 17)],
    );
    let menu = Menu::new(&mut tree, SizeFormat::MEGABYTES);
    assert_eq!(menu.selected().size, 1_000_017);
    assert!(menu.listed().is_empty());
    assert_eq!(menu.cursor(), 0);

    let mut empty = dir_with(&root, vec![]);
    let menu = Menu::new(&mut empty, SizeFormat::MEGABYTES);
    assert!(menu.listed().is_empty());
    assert_eq!(menu.cursor(), 0);
}

#[test]
fn a_menu_with_nothing_listed_takes_every_event() {
    for root_path in [vec![], vec!["root".to_string()], vec![".".to_string()]] {
        let mut tree = Dir::new(0, DirPath::new(root_path.clone()), None, false);
        let mut menu = Menu::new(&mut tree, SizeFormat::MEGABYTES);
        menu.move_up();
        assert_eq!(menu.cursor(), 0);
        menu.move_down();
        assert_eq!(menu.cursor(), 0);
        menu.select_item();
        assert_eq!(menu.selected().path, DirPath::new(root_path.clone()));
        assert_eq!(menu.cursor(), 0);
        menu.go_back();
        assert_eq!(menu.selected().path, DirPath::new(root_path.clone()));
        assert!(menu.listed().is_empty());
        assert_eq!(menu.cursor(), 0);
        assert_eq!(menu.apply(Event::MoveUp), Action::Draw);
        assert_eq!(menu.apply(Event::MoveDown), Action::Draw);
        assert_eq!(menu.apply(Event::Select), Action::Draw);
        assert_eq!(menu.apply(Event::Back), Action::Draw);
        assert_eq!(menu.apply(Event::OpenInFileManager), Action::Open);
        assert_eq!(menu.apply(Event::Exit), Action::Quit);
        assert_eq!(menu.cursor(), 0);
        assert!(menu.listed().is_empty());
    }
}

#[test]
fn a_menu_with_nothing_listed_has_no_row() {
    let root = DirPath::new(vec![".".to_string()]);
    let mut tree = dir_with(&root, vec![plain_file(&root, "small", 5)]);
    let menu = Menu::new(&mut tree, SizeFormat::MEGABYTES);
    assert_eq!(menu.calculate_max_len(), 0);
    assert_eq!(menu.calculate_index_bounds(24), (0, 21));
    assert_eq!(menu.calculate_index_bounds(3), (0, 0));
    assert_eq!(menu.rows(24), vec![]);
    assert_eq!(menu.rows(3), vec![]);
}

#[test]
fn move_up_goes_from_the_first_entry_to_the_last() {
    let mut tree = media_tree();
    let mut menu = Menu::new(&mut tree, SizeFormat::MEGABYTES);
    menu.move_up();
    assert_eq!(menu.cursor(), 2);
    menu.move_up();
    assert_eq!(menu.cursor(), 1);
    menu.move_up();
    assert_eq!(menu.cursor(), 0);
}

#[test]
fn move_down_goes_from_the_last_entry_to_the_first() {
    let mut tree = media_tree();
    let mut menu = Menu::new(&mut tree, SizeFormat::MEGABYTES);
    menu.move_down();
    assert_eq!(menu.cursor(), 1);
    menu.move_down();
    assert_eq!(menu.cursor(), 2);
    menu.move_down();
    assert_eq!(menu.cursor(), 0);
}

#[test]
fn the_cursor_stays_on_the_only_entry() {
    let mut tree = long_tree(1);
    let mut menu = Menu::new(&mut tree, SizeFormat::MEGABYTES);
    menu.move_up();
    assert_eq!(menu.cursor(), 0);
    menu.move_down();
    assert_eq!(menu.cursor(), 0);
}

#[test]
fn select_item_enters_a_directory() {
    let mut tree = media_tree();
    let mut menu = Menu::new(&mut tree, SizeFormat::MEGABYTES);
    menu.select_item();
    assert_eq!(menu.selected().name(), "videos");
    assert_eq!(menu.title(), "./videos");
    assert_eq!(menu.cursor(), 0);
    assert_eq!(listed_names(&menu), vec!["a.mkv", "b.mkv", "clips"]);
}

#[test]
fn select_item_does_nothing_on_a_file() {
    let mut tree = media_tree();
    let mut menu = Menu::new(&mut tree, SizeFormat::MEGABYTES);
    menu.move_down();
    menu.select_item();
    assert_eq!(menu.title(), ".");
    assert_eq!(menu.cursor(), 1);
    assert_eq!(listed_names(&menu), vec!["videos", "big.iso", "music"]);
}

#[test]
fn select_item_does_nothing_on_a_directory_without_a_large_entry() {
    let mut tree = media_tree();
    let mut menu = Menu::new(&mut tree, SizeFormat::MEGABYTES);
    menu.move_up();
    assert_eq!(menu.listed()[menu.cursor()].name(), "music");
    menu.select_item();
    assert_eq!(menu.title(), ".");
    assert_eq!(menu.cursor(), 2);
    menu.go_back();
    assert_eq!(menu.title(), ".");
    assert_eq!(menu.cursor(), 0);
}

#[test]
fn go_back_returns_to_the_directory_above_and_to_the_cursor_there() {
    let mut tree = media_tree();
    let mut menu = Menu::new(&mut tree, SizeFormat::MEGABYTES);
    menu.select_item();
    menu.move_down();
    menu.move_down();
    menu.select_item();
    assert_eq!(menu.title(), "./videos/clips");
    assert_eq!(listed_names(&menu), vec!["c.mp4"]);
    assert_eq!(menu.cursor(), 0);

    menu.go_back();
    assert_eq!(menu.title(), "./videos");
    assert_eq!(menu.cursor(), 2);
    assert_eq!(listed_names(&menu), vec!["a.mkv", "b.mkv", "clips"]);

    menu.go_back();
    assert_eq!(menu.title(), ".");
    assert_eq!(menu.cursor(), 0);
    assert_eq!(listed_names(&menu), vec!["videos", "big.iso", "music"]);
}

#[test]
fn go_back_from_the_root_stays_at_the_root() {
    let mut tree = media_tree();
    let mut menu = Menu::new(&mut tree, SizeFormat::MEGABYTES);
    menu.move_down();
    menu.go_back();
    assert_eq!(menu.title(), ".");
    assert_eq!(menu.cursor(), 0);
    assert_eq!(listed_names(&menu), vec!["videos", "big.iso", "music"]);
}

#[test]
fn as_many_times_back_as_down_returns_to_where_it_started() {
    let mut tree = media_tree();
    let mut menu = Menu::new(&mut tree, SizeFormat::MEGABYTES);
    menu.select_item();
    menu.move_down();
    menu.move_down();
    let path_before = menu.selected().path.clone();
    let cursor_before = menu.cursor();
    menu.select_item();
    menu.go_back();
    assert_eq!(menu.selected().path, path_before);
    assert_eq!(menu.cursor(), cursor_before);

    let mut tree = media_tree();
    let mut menu = Menu::new(&mut tree, SizeFormat::MEGABYTES);
    menu.select_item();
    menu.move_down();
    menu.move_down();
    menu.go_back();
    menu.select_item();
    menu.select_item();
    menu.go_back();
    menu.go_back();
    assert_eq!(menu.title(), ".");
    assert_eq!(menu.cursor(), 0);
}

#[test]
fn apply_takes_each_event() {
    let mut tree = media_tree();
    let mut menu = Menu::new(&mut tree, SizeFormat::MEGABYTES);
    assert_eq!(menu.apply(Event::MoveDown), Action::Draw);
    assert_eq!(menu.cursor(), 1);
    assert_eq!(menu.apply(Event::MoveUp), Action::Draw);
    assert_eq!(menu.cursor(), 0);
    assert_eq!(menu.apply(Event::Select), Action::Draw);
    assert_eq!(menu.title(), "./videos");
    assert_eq!(menu.apply(Event::OpenInFileManager), Action::Open);
    assert_eq!(menu.title(), "./videos");
    assert_eq!(menu.apply(Event::Back), Action::Draw);
    assert_eq!(menu.title(), ".");
    assert_eq!(menu.apply(Event::Exit), Action::Quit);
    assert_eq!(menu.title(), ".");
    assert_eq!(menu.cursor(), 0);
}

#[test]
fn from_key_binds_the_keys() {
    assert_eq!(Event::from_key(Key::Esc, true), Some(Event::Exit));
    assert_eq!(Event::from_key(Key::Up, true), Some(Event::MoveUp));
    assert_eq!(Event::from_key(Key::Down, true), Some(Event::MoveDown));
    assert_eq!(Event::from_key(Key::Enter, true), Some(Event::Select));
    assert_eq!(Event::from_key(Key::Right, true), Some(Event::Select));
    assert_eq!(Event::from_key(Key::Backspace, true), Some(Event::Back));
    assert_eq!(Event::from_key(Key::Left, true), Some(Event::Back));
    assert_eq!(Event::from_key(Key::Char('o'), true), Some(Event::OpenInFileManager));
    assert_eq!(Event::from_key(Key::Char('O'), true), None);
    assert_eq!(Event::from_key(Key::Char('q'), true), None);
    assert_eq!(Event::from_key(Key::Other, true), None);
}

#[test]
fn from_key_takes_no_key_that_is_not_pressed() {
    assert_eq!(Event::from_key(Key::Esc, false), None);
    assert_eq!(Event::from_key(Key::Enter, false), None);
    assert_eq!(Event::from_key(Key::Char('o'), false), None);
}

#[test]
fn calculate_max_len_is_the_longest_name_in_bytes() {
    let mut tree = media_tree();
    let mut menu = Menu::new(&mut tree, SizeFormat::MEGABYTES);
    assert_eq!(menu.calculate_max_len(), 7);
    menu.select_item();
    assert_eq!(menu.calculate_max_len(), 5);

    let root = DirPath::new(vec![".".to_string()]);
    let mut tree = dir_with(&root, vec![plain_file(&root, "añb", 2_000_000)]);
    let menu = Menu::new(&mut tree, SizeFormat::MEGABYTES);
    assert_eq!(menu.calculate_max_len(), 4);
}

#[test]
fn calculate_index_bounds_starts_at_the_top() {
    let mut tree = long_tree(30);
    let mut menu = Menu::new(&mut tree, SizeFormat::MEGABYTES);
    assert_eq!(menu.calculate_index_bounds(7), (0, 4));
    assert_eq!(menu.calculate_index_bounds(3), (0, 0));
    menu.move_down();
    menu.move_down();
    assert_eq!(menu.calculate_index_bounds(7), (0, 4));
    assert_eq!(menu.calculate_index_bounds(203), (0, 200));
}

#[test]
fn calculate_index_bounds_keeps_the_cursor_in_the_middle() {
    let mut tree = long_tree(30);
    let mut menu = Menu::new(&mut tree, SizeFormat::MEGABYTES);
    for _ in 0..3 {
        menu.move_down();
    }
    assert_eq!(menu.calculate_index_bounds(7), (0, 5));
    for _ in 0..2 {
        menu.move_down();
    }
    assert_eq!(menu.cursor(), 5);
    assert_eq!(menu.calculate_index_bounds(7), (2, 7));
    assert_eq!(menu.calculate_index_bounds(8), (2, 7));
    assert_eq!(menu.calculate_index_bounds(3), (4, 5));
    for _ in 0..21 {
        menu.move_down();
    }
    assert_eq!(menu.cursor(), 26);
    assert_eq!(menu.calculate_index_bounds(7), (23, 28));
}

#[test]
fn calculate_index_bounds_ends_at_the_bottom() {
    let mut tree = long_tree(30);
    let mut menu = Menu::new(&mut tree, SizeFormat::MEGABYTES);
    menu.move_up();
    assert_eq!(menu.cursor(), 29);
    assert_eq!(menu.calculate_index_bounds(7), (25, 29));
    menu.move_up();
    menu.move_up();
    assert_eq!(menu.cursor(), 27);
    assert_eq!(menu.calculate_index_bounds(7), (25, 29));
}

#[test]
fn calculate_index_bounds_takes_a_short_list_whole() {
    let mut tree = long_tree(3);
    let mut menu = Menu::new(&mut tree, SizeFormat::MEGABYTES);
    menu.move_up();
    assert_eq!(menu.cursor(), 2);
    assert_eq!(menu.calculate_index_bounds(5), (0, 2));
    assert_eq!(menu.calculate_index_bounds(6), (0, 2));
    assert_eq!(menu.calculate_index_bounds(4), (1, 2));
}

#[test]
fn rows_are_the_entries_as_they_are_drawn() {
    let mut tree = media_tree();
    let mut menu = Menu::new(&mut tree, SizeFormat::MEGABYTES);
    assert_eq!(
        menu.rows(24),
        vec![
            row(true, Color::White, "videos  - 9.00 mb"),
            row(false, Color::Red, "big.iso - 8.00 mb"),
            row(false, Color::White, "music   - 1.70 mb"),
        ]
    );
    menu.move_down();
    assert_eq!(
        menu.rows(24),
        vec![
            row(false, Color::White, "videos  - 9.00 mb"),
            row(true, Color::Red, "big.iso - 8.00 mb"),
            row(false, Color::White, "music   - 1.70 mb"),
        ]
    );
}

#[test]
fn rows_are_in_the_unit_of_the_menu() {
    let mut tree = media_tree();
    let menu = Menu::new(&mut tree, SizeFormat::BYTES);
    let texts: Vec<String> = menu.rows(24).into_iter().map(|row| row.text).collect();
    assert_eq!(
        texts,
        vec![
            "videos  - 9000510.00 bytes",
            "big.iso - 8000000.00 bytes",
            "music   - 1700000.00 bytes"
        ]
    );
    let mut tree = media_tree();
    let menu = Menu::new(&mut tree, SizeFormat::GIGABYTES);
    assert_eq!(menu.rows(24)[0].text, "videos  - 0.01 gb");
}

#[test]
fn rows_are_those_within_the_bounds() {
    let mut tree = long_tree(30);
    let mut menu = Menu::new(&mut tree, SizeFormat::MEGABYTES);
    for _ in 0..5 {
        menu.move_down();
    }
    let rows = menu.rows(7);
    let texts: Vec<&str> = rows.iter().map(|row| row.text.as_str()).collect();
    assert_eq!(
        texts,
        vec![
            "f02 - 9.00 mb",
            "f03 - 9.00 mb",
            "f04 - 9.00 mb",
            "f05 - 9.00 mb",
            "f06 - 9.00 mb",
            "f07 - 9.00 mb"
        ]
    );
    let marks: Vec<bool> = rows.iter().map(|row| row.selected).collect();
    assert_eq!(marks, vec![false, false, false, true, false, false]);
    assert!(rows.iter().all(|row| row.color == Color::Red));
}

#[test]
fn rows_end_with_the_last_entry() {
    let mut tree = long_tree(3);
    let menu = Menu::new(&mut tree, SizeFormat::MEGABYTES);
    assert_eq!(menu.calculate_index_bounds(24), (0, 21));
    assert_eq!(menu.rows(24).len(), 3);
    assert_eq!(menu.rows(3).len(), 1);
}

#[test]
fn display_menu_pads_the_name() {
    let root = DirPath::new(vec![".".to_string()]);
    let file = plain_file(&root, "src", 2_504_000);
    assert_eq!(
        file.display_menu(&SizeFormat::MEGABYTES, None),
        "src                       - 2.50 mb"
    );
    assert_eq!(file.display_menu(&SizeFormat::MEGABYTES, Some(5)), "src   - 2.50 mb");
    assert_eq!(file.display_menu(&SizeFormat::MEGABYTES, Some(2)), "src - 2.50 mb");
    assert_eq!(file.display_menu(&SizeFormat::BYTES, Some(3)), "src - 2504000.00 bytes");
}

#[test]
fn color_is_red_for_a_file_and_white_for_a_directory() {
    let root = DirPath::new(vec![".".to_string()]);
    assert_eq!(plain_file(&root, "a", 1).color(), Color::Red);
    assert_eq!(dir_with(&root, vec![]).color(), Color::White);
    assert_eq!(Dir::new(0, root, None, false).color(), Color::White);
}
