use dirsize::path::DirPath;
use dirsize::scanning::{Entry, Listing, Probe, Scanner};
use dirsize::structs::{Dir, SizeFormat};
use std::path::Path;

fn dir_path(path: &Path) -> DirPath {
    DirPath::new(
        path.components()
            .map(|part| part.as_os_str().to_string_lossy().into_owned())
            .collect(),
    )
}

fn file(name: &str, size: u64) -> Entry {
    Entry { name: name.to_string(), probe: Probe::File { size, is_file: true } }
}

fn directory(name: &str) -> Entry {
    Entry { name: name.to_string(), probe: Probe::Directory }
}

/// The tree of a directory `.` that holds `Cargo.toml`, `src/lib.rs`,
/// `src/big.bin` and `target/debug/build.bin`.
fn sample_tree() -> Dir {
    let mut scanner = Scanner::new(dir_path(Path::new(".")));
    scanner
        .feed(Listing::Entries(vec![
            file("Cargo.toml", 300),
            directory("src"),
            directory("target"),
        ]))
        .unwrap();
    assert_eq!(scanner.awaiting(), Some(&dir_path(Path::new("./src"))));
    scanner
        .feed(Listing::Entries(vec![file("lib.rs", 4_000), file("big.bin", 2_500_000)]))
        .unwrap();
    assert_eq!(scanner.awaiting(), Some(&dir_path(Path::new("./target"))));
    scanner.feed(Listing::Entries(vec![directory("debug")])).unwrap();
    assert_eq!(scanner.awaiting(), Some(&dir_path(Path::new("./target/debug"))));
    scanner.feed(Listing::Entries(vec![file("build.bin", 7_000_000)])).unwrap();
    assert_eq!(scanner.awaiting(), None);
    scanner.into_tree().unwrap()
}

fn leaf_of_size(path: &str, size: u64) -> Dir {
    Dir::new(size, dir_path(Path::new(path)), None, true)
}

#[test]
fn test_dir_find() {
    let tree = sample_tree();
    let found = tree.find(&dir_path(Path::new("./src/lib.rs")));

    assert_eq!(found.path, dir_path(Path::new("./src/")));
}

#[test]
fn test_filter_size() {
    let tree = sample_tree();
    let size_min = 1000000;
    let filtered = tree.filter_size(size_min);

    for filt in filtered.unwrap().iter() {
        assert!(filt.size > size_min);
    }
}

#[test]
fn find_gives_the_parent_at_every_depth() {
    let tree = sample_tree();
    let found = tree.find(&dir_path(Path::new("./target/debug/build.bin")));
    assert_eq!(found.path, dir_path(Path::new("./target/debug")));
    assert_eq!(found.size, 7_000_000);

    let found = tree.find(&dir_path(Path::new("./target/debug")));
    assert_eq!(found.path, dir_path(Path::new("./target")));

    let found = tree.find(&dir_path(Path::new("./src")));
    assert_eq!(found.path, dir_path(Path::new(".")));
}

#[test]
fn find_gives_the_root_for_the_root_and_for_the_empty_path() {
    let tree = sample_tree();
    assert_eq!(tree.find(&dir_path(Path::new("."))).path, dir_path(Path::new(".")));
    assert_eq!(tree.find(&DirPath::new(vec![])).path, dir_path(Path::new(".")));
}

#[test]
fn find_stops_where_no_child_is_on_the_way() {
    let tree = sample_tree();
    let found = tree.find(&dir_path(Path::new("./src/deep/er/file")));
    assert_eq!(found.path, dir_path(Path::new("./src")));
}

#[test]
fn try_find_gives_what_find_gives() {
    let tree = sample_tree();
    let found = tree.try_find(&dir_path(Path::new("./target/debug/build.bin"))).unwrap();
    assert_eq!(found.path, dir_path(Path::new("./target/debug")));
    let found = tree.try_find(&dir_path(Path::new("."))).unwrap();
    assert_eq!(found.path, dir_path(Path::new(".")));
}

#[test]
fn try_find_gives_nothing_where_the_way_leads_into_a_leaf() {
    let tree = sample_tree();
    assert_eq!(tree.try_find(&dir_path(Path::new("./Cargo.toml/x/y"))), None);
    assert_eq!(tree.try_find(&dir_path(Path::new("./src/lib.rs/x/y"))), None);
    let closed = Dir::new(0, dir_path(Path::new("./closed")), None, false);
    assert_eq!(closed.try_find(&dir_path(Path::new("./closed/a/b"))), None);
    assert!(closed.try_find(&dir_path(Path::new("./closed/a"))).is_some());
}

#[test]
fn filter_size_keeps_the_larger_children_in_their_order() {
    let tree = sample_tree();
    let kept = tree.filter_size(1_000_000).unwrap();
    let names: Vec<&str> = kept.iter().map(|dir| dir.name()).collect();
    assert_eq!(names, vec!["src", "target"]);

    let kept = tree.filter_size(100).unwrap();
    let names: Vec<&str> = kept.iter().map(|dir| dir.name()).collect();
    assert_eq!(names, vec!["Cargo.toml", "src", "target"]);
}

#[test]
fn filter_size_is_strict() {
    let tree = sample_tree();
    let kept = tree.filter_size(2_504_000).unwrap();
    let names: Vec<&str> = kept.iter().map(|dir| dir.name()).collect();
    assert_eq!(names, vec!["target"]);
    let kept = tree.filter_size(2_503_999).unwrap();
    assert_eq!(kept.len(), 2);
}

#[test]
fn filter_size_gives_nothing_for_a_leaf() {
    let leaf = leaf_of_size("./big.bin", 9_000_000);
    assert!(leaf.filter_size(0).is_none());
}

#[test]
fn filter_size_gives_nothing_where_no_child_is_larger() {
    let tree = sample_tree();
    assert!(tree.filter_size(7_000_000).is_none());
    let empty = Dir::new(0, dir_path(Path::new("./empty")), Some(vec![]), false);
    assert!(empty.filter_size(0).is_none());
}

#[test]
fn len_counts_the_children() {
    let tree = sample_tree();
    assert_eq!(tree.len(), 3);
    assert_eq!(leaf_of_size("./a", 1).len(), 0);
    assert_eq!(Dir::new(0, dir_path(Path::new("./empty")), Some(vec![]), false).len(), 0);
}

#[test]
fn is_empty_holds_of_a_read_directory_without_entries_only() {
    let tree = sample_tree();
    assert!(!tree.is_empty());
    assert!(!leaf_of_size("./a", 1).is_empty());
    assert!(Dir::new(0, dir_path(Path::new("./empty")), Some(vec![]), false).is_empty());
}

#[test]
fn name_is_the_last_component() {
    let tree = sample_tree();
    let children = tree.contents.as_ref().unwrap();
    assert_eq!(children[0].name(), "Cargo.toml");
    assert_eq!(children[1].name(), "src");
    assert_eq!(leaf_of_size("/var/log/syslog", 1).name(), "syslog");
    assert_eq!(Dir::new(0, dir_path(Path::new("/r/sub/a.txt")), None, true).name(), "a.txt");
    assert_eq!(Dir::new(0, dir_path(Path::new("./src/")), Some(vec![]), false).name(), "src");
}

#[test]
fn the_root_and_the_dots_have_no_name() {
    assert_eq!(dir_path(Path::new("/")).file_name(), None);
    assert_eq!(dir_path(Path::new(".")).file_name(), None);
    assert_eq!(dir_path(Path::new("..")).file_name(), None);
    assert_eq!(dir_path(Path::new("a/..")).file_name(), None);
}

#[test]
fn paths_do_not_nest_with_a_child_without_a_name() {
    let dots = Dir::new(
        5,
        dir_path(Path::new("a")),
        Some(vec![Dir::new(5, DirPath::new(vec!["a".to_string(), "..".to_string()]), None, true)]),
        false,
    );
    assert!(!dots.paths_nest());
    let dot = Dir::new(
        5,
        dir_path(Path::new("a")),
        Some(vec![Dir::new(5, DirPath::new(vec!["a".to_string(), ".".to_string()]), None, true)]),
        false,
    );
    assert!(!dot.paths_nest());
    let root = Dir::new(
        5,
        DirPath::new(vec![]),
        Some(vec![Dir::new(5, dir_path(Path::new("/")), None, false)]),
        false,
    );
    assert!(!root.paths_nest());
}

#[test]
fn new_keeps_what_it_is_given() {
    let dir = Dir::new(42, dir_path(Path::new("a/b")), None, true);
    assert_eq!(dir.size, 42);
    assert_eq!(dir.path, dir_path(Path::new("a/b")));
    assert_eq!(dir.contents, None);
    assert!(dir.is_file);
}

#[test]
fn size_formated_gives_hundredths_of_the_unit() {
    let dir = leaf_of_size("./a", 2_504_000);
    assert_eq!(dir.size_formated(SizeFormat::BYTES), (250_400_000, "bytes"));
    assert_eq!(dir.size_formated(SizeFormat::MEGABYTES), (250, "mb"));
    assert_eq!(dir.size_formated(SizeFormat::GIGABYTES), (0, "gb"));
    let dir = leaf_of_size("./a", 1_500_000_000);
    assert_eq!(dir.size_formated(SizeFormat::GIGABYTES), (150, "gb"));
    assert_eq!(dir.size_formated(SizeFormat::MEGABYTES), (150_000, "mb"));
}

#[test]
fn size_formated_rounds_to_the_nearest_and_halves_to_the_even() {
    assert_eq!(leaf_of_size("./a", 1_126_000).size_formated(SizeFormat::MEGABYTES).0, 113);
    assert_eq!(leaf_of_size("./a", 1_124_999).size_formated(SizeFormat::MEGABYTES).0, 112);
    assert_eq!(leaf_of_size("./a", 1_125_000).size_formated(SizeFormat::MEGABYTES).0, 112);
    assert_eq!(leaf_of_size("./a", 1_135_000).size_formated(SizeFormat::MEGABYTES).0, 114);
    assert_eq!(leaf_of_size("./a", 1_125_001).size_formated(SizeFormat::MEGABYTES).0, 113);
    assert_eq!(leaf_of_size("./a", 4_999).size_formated(SizeFormat::MEGABYTES).0, 0);
    assert_eq!(leaf_of_size("./a", 5_000).size_formated(SizeFormat::MEGABYTES).0, 0);
    assert_eq!(leaf_of_size("./a", 5_001).size_formated(SizeFormat::MEGABYTES).0, 1);
    assert_eq!(leaf_of_size("./a", 15_000).size_formated(SizeFormat::MEGABYTES).0, 2);
}

#[test]
fn size_formated_takes_the_largest_size() {
    let dir = leaf_of_size("./a", u64::MAX);
    assert_eq!(dir.size_formated(SizeFormat::BYTES), (1_844_674_407_370_955_161_500, "bytes"));
    assert_eq!(dir.size_formated(SizeFormat::GIGABYTES), (1_844_674_407_371, "gb"));
}

#[test]
fn display_shows_the_path_and_the_size() {
    let tree = sample_tree();
    let src = &tree.contents.as_ref().unwrap()[1];
    assert_eq!(src.display(SizeFormat::MEGABYTES), "path: \"./src\" size: 2.50 mb");
    assert_eq!(src.display(SizeFormat::BYTES), "path: \"./src\" size: 2504000.00 bytes");
    assert_eq!(src.display(SizeFormat::GIGABYTES), "path: \"./src\" size: 0.00 gb");
    assert_eq!(tree.display(SizeFormat::MEGABYTES), "path: \".\" size: 9.50 mb");
}

#[test]
fn display_default_is_in_megabytes() {
    let tree = sample_tree();
    assert_eq!(tree.display_default(), "path: \".\" size: 9.50 mb");
    assert_eq!(
        leaf_of_size("/var/log/syslog", 123_456_789).display_default(),
        "path: \"/var/log/syslog\" size: 123.46 mb"
    );
    assert_eq!(leaf_of_size("a", 0).display_default(), "path: \"a\" size: 0.00 mb");
}

#[test]
fn paths_nest_in_a_scanned_tree() {
    assert!(sample_tree().paths_nest());
    assert!(leaf_of_size("./a", 1).paths_nest());
}

#[test]
fn paths_do_not_nest_with_a_child_from_elsewhere() {
    let stray = Dir::new(
        5,
        dir_path(Path::new("./a")),
        Some(vec![leaf_of_size("./b/c", 5)]),
        false,
    );
    assert!(!stray.paths_nest());
    let deep = Dir::new(
        5,
        dir_path(Path::new("./a")),
        Some(vec![leaf_of_size("./a/b/c", 5)]),
        false,
    );
    assert!(!deep.paths_nest());
    let outer = Dir::new(5, dir_path(Path::new(".")), Some(vec![stray]), false);
    assert!(!outer.paths_nest());
}

#[test]
fn paths_do_not_nest_with_two_children_of_one_path() {
    let twins = Dir::new(
        10,
        dir_path(Path::new("./a")),
        Some(vec![leaf_of_size("./a/b", 5), leaf_of_size("./a/c", 1), leaf_of_size("./a/b", 4)]),
        false,
    );
    assert!(!twins.paths_nest());
}
