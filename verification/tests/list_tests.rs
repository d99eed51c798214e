use ls::{
    gnu_style_error, Action, Config, EntryInfo, ErrorKind, FileTime, Format, HiddenMode, Lister,
    Sort,
};

/// A directory tree held in memory: each directory's path and its entries.
struct FakeFs {
    dirs: Vec<(String, Vec<EntryInfo>)>,
}

impl FakeFs {
    fn new() -> Self {
        FakeFs { dirs: Vec::new() }
    }

    fn dir(&mut self, path: &str, entries: Vec<EntryInfo>) -> &mut Self {
        self.dirs.push((path.to_string(), entries));
        self
    }

    fn read_dir(&self, path: &[u8]) -> Result<Vec<EntryInfo>, ErrorKind> {
        for (p, entries) in &self.dirs {
            if p.as_bytes() == path {
                return Ok(entries.iter().map(|e| e.duplicate()).collect());
            }
        }
        Err(ErrorKind::NotFound)
    }
}

fn file(name: &str) -> EntryInfo {
    EntryInfo::from_name_only(name)
}

fn dir_entry(name: &str) -> EntryInfo {
    EntryInfo {
        is_dir: true,
        permissions: 0o755,
        ..EntryInfo::from_name_only(name)
    }
}

/// Runs a listing against the tree, the way the program does against the
/// file system.
fn run_fs(config: &Config, fs: &FakeFs) -> Result<String, ErrorKind> {
    let mut lister = Lister::new(config);
    let mut out: Vec<u8> = Vec::new();
    loop {
        match lister.next_action() {
            Action::Done => break,
            Action::ListOperands => {
                let entries = config.paths.iter().map(|p| EntryInfo {
                    name: p.clone(),
                    is_dir: true,
                    ..EntryInfo::from_name_only("")
                });
                out.extend(lister.finish_operands(entries.collect()));
            }
            Action::ReadDir { path, header } => {
                out.extend(header);
                let items = fs.read_dir(&path)?;
                let names: Vec<Vec<u8>> = items.iter().map(|e| e.name.clone()).collect();
                let shown = lister.select_visible(&names);
                let mut items: Vec<Option<EntryInfo>> = items.into_iter().map(Some).collect();
                let entries: Vec<EntryInfo> =
                    shown.iter().map(|&i| items[i].take().unwrap()).collect();
                let dots = if lister.wants_dots() {
                    Some((dir_entry("."), dir_entry("..")))
                } else {
                    None
                };
                out.extend(lister.finish_dir(&path, entries, dots));
            }
        }
    }
    Ok(String::from_utf8(out).unwrap())
}

fn make_config(
    format: Format,
    hidden_mode: HiddenMode,
    reverse: bool,
    recursive: bool,
    paths: Vec<&str>,
) -> Config {
    Config {
        format,
        hidden_mode,
        reverse,
        list_dir: false,
        recursive,
        sort: Sort::Default,
        human_readable: false,
        paths: paths.into_iter().map(|p| p.as_bytes().to_vec()).collect(),
    }
}

fn time_config(reverse: bool, paths: Vec<&str>) -> Config {
    Config {
        format: Format::OneLine,
        hidden_mode: HiddenMode::Default,
        reverse,
        list_dir: false,
        recursive: false,
        sort: Sort::Time,
        human_readable: false,
        paths: paths.into_iter().map(|p| p.as_bytes().to_vec()).collect(),
    }
}

fn size_config(reverse: bool, paths: Vec<&str>) -> Config {
    Config {
        format: Format::OneLine,
        hidden_mode: HiddenMode::Default,
        reverse,
        list_dir: false,
        recursive: false,
        sort: Sort::Size,
        human_readable: false,
        paths: paths.into_iter().map(|p| p.as_bytes().to_vec()).collect(),
    }
}

fn long_config(paths: Vec<&str>) -> Config {
    Config {
        format: Format::Long,
        hidden_mode: HiddenMode::Default,
        reverse: false,
        list_dir: false,
        recursive: false,
        sort: Sort::Default,
        human_readable: false,
        paths: paths.into_iter().map(|p| p.as_bytes().to_vec()).collect(),
    }
}

fn names_of(entries: &[EntryInfo]) -> Vec<&str> {
    entries.iter().map(|e| std::str::from_utf8(&e.name).unwrap()).collect()
}

fn at(secs: i64) -> FileTime {
    FileTime { secs, nanos: 0 }
}

#[test]
fn sort_entries_alphabetical() {
    let c = make_config(Format::Default, HiddenMode::Default, false, false, vec![]);
    let lister = Lister::new(&c);
    let mut entries: Vec<EntryInfo> = vec!["c", "a", "b"]
        .into_iter()
        .map(EntryInfo::from_name_only)
        .collect();
    lister.sort_entries(&mut entries);
    assert_eq!(names_of(&entries), vec!["a", "b", "c"]);
}

#[test]
fn sort_entries_reverse() {
    let c = make_config(Format::Default, HiddenMode::Default, true, false, vec![]);
    let lister = Lister::new(&c);
    let mut entries: Vec<EntryInfo> = vec!["c", "a", "b"]
        .into_iter()
        .map(EntryInfo::from_name_only)
        .collect();
    lister.sort_entries(&mut entries);
    assert_eq!(names_of(&entries), vec!["c", "b", "a"]);
}

#[test]
fn list_alphabetical_order() {
    let mut fs = FakeFs::new();
    fs.dir("alphabetical", vec![file("c"), file("a"), file("b")]);
    let c = make_config(Format::OneLine, HiddenMode::Default, false, false, vec!["alphabetical"]);
    assert_eq!(run_fs(&c, &fs).unwrap(), "a\nb\nc\n");
}

#[test]
fn list_reverse_order() {
    let mut fs = FakeFs::new();
    fs.dir("reverse", vec![file("a"), file("b"), file("c")]);
    let c = make_config(Format::OneLine, HiddenMode::Default, true, false, vec!["reverse"]);
    assert_eq!(run_fs(&c, &fs).unwrap(), "c\nb\na\n");
}

#[test]
fn list_excludes_hidden_by_default() {
    let mut fs = FakeFs::new();
    fs.dir("hidden_default", vec![file("visible"), file(".hidden")]);
    let c = make_config(Format::OneLine, HiddenMode::Default, false, false, vec!["hidden_default"]);
    assert_eq!(run_fs(&c, &fs).unwrap(), "visible\n");
}

#[test]
fn list_all_includes_hidden_and_dots() {
    let mut fs = FakeFs::new();
    fs.dir("hidden_all", vec![file("visible"), file(".hidden")]);
    let c = make_config(Format::OneLine, HiddenMode::All, false, false, vec!["hidden_all"]);
    assert_eq!(run_fs(&c, &fs).unwrap(), ".\n..\n.hidden\nvisible\n");
}

#[test]
fn list_almost_all_includes_hidden_not_dots() {
    let mut fs = FakeFs::new();
    fs.dir("hidden_almost_all", vec![file("visible"), file(".hidden")]);
    let c = make_config(
        Format::OneLine,
        HiddenMode::AlmostAll,
        false,
        false,
        vec!["hidden_almost_all"],
    );
    assert_eq!(run_fs(&c, &fs).unwrap(), ".hidden\nvisible\n");
}

#[test]
fn list_multiple_paths_shows_headers() {
    let mut fs = FakeFs::new();
    fs.dir("multi1", vec![file("x")]);
    fs.dir("multi2", vec![file("y")]);
    let c = make_config(Format::OneLine, HiddenMode::Default, false, false, vec!["multi1", "multi2"]);
    let out = run_fs(&c, &fs).unwrap();
    let sections: Vec<&str> = out.split("\n\n").collect();
    assert_eq!(sections.len(), 2);
    assert!(sections[0].contains(":\n") && sections[0].contains("x"));
    assert!(sections[1].contains(":\n") && sections[1].contains("y"));
}

#[test]
fn list_recursive_visits_subdirectories() {
    let mut fs = FakeFs::new();
    fs.dir("recursive", vec![file("root_file"), dir_entry("subdir")]);
    fs.dir("recursive/subdir", vec![file("sub_file")]);
    let c = make_config(Format::OneLine, HiddenMode::Default, false, true, vec!["recursive"]);
    let out = run_fs(&c, &fs).unwrap();
    assert!(out.contains("root_file\n"));
    assert!(out.contains("subdir\n"));
    assert!(out.contains("sub_file\n"));
}

#[test]
fn sort_by_time_newest_first() {
    let c = time_config(false, vec![]);
    let lister = Lister::new(&c);
    let mut entries = vec![
        EntryInfo::from_parts("a", at(0)),
        EntryInfo::from_parts("b", at(2)),
        EntryInfo::from_parts("c", at(1)),
    ];
    lister.sort_entries(&mut entries);
    assert_eq!(names_of(&entries), vec!["b", "c", "a"]);
}

#[test]
fn sort_by_time_tiebreaker_alphabetical() {
    let c = time_config(false, vec![]);
    let lister = Lister::new(&c);
    let mut entries = vec![
        EntryInfo::from_parts("c", at(0)),
        EntryInfo::from_parts("a", at(0)),
        EntryInfo::from_parts("b", at(0)),
    ];
    lister.sort_entries(&mut entries);
    assert_eq!(names_of(&entries), vec!["a", "b", "c"]);
}

#[test]
fn sort_by_time_reverse() {
    let c = time_config(true, vec![]);
    let lister = Lister::new(&c);
    let mut entries = vec![
        EntryInfo::from_parts("a", at(0)),
        EntryInfo::from_parts("b", at(2)),
        EntryInfo::from_parts("c", at(1)),
    ];
    lister.sort_entries(&mut entries);
    assert_eq!(names_of(&entries), vec!["a", "c", "b"]);
}

#[test]
fn list_sort_by_time_newest_first() {
    let mut fs = FakeFs::new();
    fs.dir(
        "sort_time",
        vec![
            EntryInfo::from_parts("a", FileTime { secs: 1_700_000_000, nanos: 0 }),
            EntryInfo::from_parts("b", FileTime { secs: 1_700_000_000, nanos: 10_000_000 }),
        ],
    );
    assert_eq!(run_fs(&time_config(false, vec!["sort_time"]), &fs).unwrap(), "b\na\n");
}

#[test]
fn sort_by_size_largest_first() {
    let c = size_config(false, vec![]);
    let lister = Lister::new(&c);
    let mut entries = vec![
        EntryInfo::from_size("small", 1),
        EntryInfo::from_size("large", 100),
        EntryInfo::from_size("medium", 50),
    ];
    lister.sort_entries(&mut entries);
    assert_eq!(names_of(&entries), vec!["large", "medium", "small"]);
}

#[test]
fn sort_by_size_tiebreaker_alphabetical() {
    let c = size_config(false, vec![]);
    let lister = Lister::new(&c);
    let mut entries = vec![
        EntryInfo::from_size("c", 10),
        EntryInfo::from_size("a", 10),
        EntryInfo::from_size("b", 10),
    ];
    lister.sort_entries(&mut entries);
    assert_eq!(names_of(&entries), vec!["a", "b", "c"]);
}

#[test]
fn sort_by_size_reverse() {
    let c = size_config(true, vec![]);
    let lister = Lister::new(&c);
    let mut entries = vec![
        EntryInfo::from_size("small", 1),
        EntryInfo::from_size("large", 100),
        EntryInfo::from_size("medium", 50),
    ];
    lister.sort_entries(&mut entries);
    assert_eq!(names_of(&entries), vec!["small", "medium", "large"]);
}

#[test]
fn list_sort_by_size_largest_first() {
    let mut fs = FakeFs::new();
    fs.dir(
        "sort_size",
        vec![EntryInfo::from_size("small", 1), EntryInfo::from_size("large", 100)],
    );
    assert_eq!(run_fs(&size_config(false, vec!["sort_size"]), &fs).unwrap(), "large\nsmall\n");
}

#[test]
fn list_long_format_shows_permissions_and_total() {
    let mut fs = FakeFs::new();
    fs.dir(
        "long_format",
        vec![EntryInfo { permissions: 0o644, blocks_512: 8, ..EntryInfo::from_name_only("a") }],
    );
    let out = run_fs(&long_config(vec!["long_format"]), &fs).unwrap();
    let lines: Vec<&str> = out.lines().collect();
    assert!(lines[0].starts_with("total "));
    assert!(lines[0].strip_prefix("total ").unwrap().parse::<u64>().is_ok());
    assert!(lines[1].contains("-rw-r--r--"));
    assert!(lines[1].trim_end().ends_with('a'));
}

#[test]
fn list_long_format_shows_symlink_target() {
    let mut fs = FakeFs::new();
    fs.dir(
        "symlink",
        vec![
            file("target"),
            EntryInfo {
                is_symlink: true,
                permissions: 0o777,
                symlink_target: Some(b"symlink/target".to_vec()),
                ..EntryInfo::from_name_only("link")
            },
        ],
    );
    let out = run_fs(&long_config(vec!["symlink"]), &fs).unwrap();
    assert!(out.contains("link -> "));
    assert!(out.lines().any(|l| l.starts_with('l')));
}

#[test]
fn list_nonexistent_path_returns_error() {
    let fs = FakeFs::new();
    let c = make_config(
        Format::OneLine,
        HiddenMode::Default,
        false,
        false,
        vec!["/nonexistent_ls_test_path"],
    );
    assert!(run_fs(&c, &fs).is_err());
}

#[test]
fn recursive_listing_visits_subdirectories_in_sorted_order_after_parent() {
    let mut fs = FakeFs::new();
    fs.dir("top", vec![dir_entry("b"), file("f"), dir_entry("a")]);
    fs.dir("top/a", vec![dir_entry("inner")]);
    fs.dir("top/a/inner", vec![]);
    fs.dir("top/b", vec![file("x")]);
    let c = make_config(Format::OneLine, HiddenMode::Default, false, true, vec!["top"]);
    assert_eq!(
        run_fs(&c, &fs).unwrap(),
        "top:\na\nb\nf\n\ntop/a:\ninner\n\ntop/a/inner:\n\ntop/b:\nx\n"
    );
}

#[test]
fn recursive_listing_in_reverse_visits_subdirectories_in_reverse() {
    let mut fs = FakeFs::new();
    fs.dir("top/", vec![dir_entry("a"), dir_entry("b")]);
    fs.dir("top/a", vec![]);
    fs.dir("top/b", vec![]);
    let c = make_config(Format::OneLine, HiddenMode::Default, true, true, vec!["top/"]);
    assert_eq!(run_fs(&c, &fs).unwrap(), "top/:\nb\na\n\ntop/b:\n\ntop/a:\n");
}

#[test]
fn single_operand_has_no_header() {
    let mut fs = FakeFs::new();
    fs.dir("one", vec![file("x")]);
    let c = make_config(Format::OneLine, HiddenMode::Default, false, false, vec!["one"]);
    assert_eq!(run_fs(&c, &fs).unwrap(), "x\n");
}

#[test]
fn hidden_directories_are_not_descended_by_default() {
    let mut fs = FakeFs::new();
    fs.dir("top", vec![dir_entry(".git"), dir_entry("src")]);
    fs.dir("top/src", vec![file("main.rs")]);
    let c = make_config(Format::OneLine, HiddenMode::Default, false, true, vec!["top"]);
    assert_eq!(run_fs(&c, &fs).unwrap(), "top:\nsrc\n\ntop/src:\nmain.rs\n");
}

#[test]
fn list_dir_mode_lists_operands_sorted() {
    let fs = FakeFs::new();
    let mut c = make_config(Format::OneLine, HiddenMode::Default, false, false, vec!["z", "m", "a"]);
    c.list_dir = true;
    assert_eq!(run_fs(&c, &fs).unwrap(), "a\nm\nz\n");
}

#[test]
fn error_messages_name_the_path_and_reason() {
    assert_eq!(
        gnu_style_error(b"/nope", ErrorKind::NotFound),
        b"ls: cannot access '/nope': No such file or directory".to_vec()
    );
    assert_eq!(
        gnu_style_error(b"secret", ErrorKind::PermissionDenied),
        b"ls: cannot access 'secret': Permission denied".to_vec()
    );
    assert_eq!(
        gnu_style_error(b"f", ErrorKind::NotADirectory),
        b"ls: cannot access 'f': Not a directory".to_vec()
    );
    assert_eq!(
        gnu_style_error(b"x", ErrorKind::Other),
        b"ls: cannot access 'x': Unknown error".to_vec()
    );
}

#[test]
fn error_message_shows_invalid_utf8_as_replacement_character() {
    assert_eq!(
        gnu_style_error(&[b'a', 0xff, b'b'], ErrorKind::NotFound),
        "ls: cannot access 'a\u{FFFD}b': No such file or directory".as_bytes().to_vec()
    );
}

#[test]
fn reverse_sort_with_distinct_keys_is_exact_reversal() {
    let names = vec!["delta", "alpha", "charlie", "bravo", "echo"];
    let forward = Config { sort: Sort::Default, ..time_config(false, vec![]) };
    let backward = Config { sort: Sort::Default, ..time_config(true, vec![]) };
    let mut a: Vec<EntryInfo> = names.iter().map(|n| EntryInfo::from_name_only(n)).collect();
    let mut b: Vec<EntryInfo> = names.iter().map(|n| EntryInfo::from_name_only(n)).collect();
    Lister::new(&forward).sort_entries(&mut a);
    Lister::new(&backward).sort_entries(&mut b);
    let mut fa = names_of(&a);
    fa.reverse();
    assert_eq!(fa, names_of(&b));
}

#[test]
fn reverse_sort_keeps_ties_in_input_order() {
    let c = size_config(true, vec![]);
    let lister = Lister::new(&c);
    let mut entries = vec![
        EntryInfo { name: b"same".to_vec(), size: 5, ..EntryInfo::from_name_only("") },
        EntryInfo { name: b"same".to_vec(), size: 5, nlink: 2, ..EntryInfo::from_name_only("") },
    ];
    lister.sort_entries(&mut entries);
    assert_eq!(entries[0].nlink, 1);
    assert_eq!(entries[1].nlink, 2);
}

#[test]
fn time_sort_compares_nanoseconds() {
    let c = time_config(false, vec![]);
    let lister = Lister::new(&c);
    let mut entries = vec![
        EntryInfo::from_parts("old", FileTime { secs: 10, nanos: 5 }),
        EntryInfo::from_parts("new", FileTime { secs: 10, nanos: 6 }),
        EntryInfo::from_parts("older", FileTime { secs: -3, nanos: 999_999_999 }),
    ];
    lister.sort_entries(&mut entries);
    assert_eq!(names_of(&entries), vec!["new", "old", "older"]);
}

#[test]
fn names_sort_by_bytes() {
    let c = make_config(Format::OneLine, HiddenMode::Default, false, false, vec![]);
    let lister = Lister::new(&c);
    let mut entries: Vec<EntryInfo> = vec!["b", "B", "ab", "a", "_"]
        .into_iter()
        .map(EntryInfo::from_name_only)
        .collect();
    lister.sort_entries(&mut entries);
    assert_eq!(names_of(&entries), vec!["B", "_", "a", "ab", "b"]);
}

fn unsorted_config(reverse: bool, recursive: bool, paths: Vec<&str>) -> Config {
    Config {
        hidden_mode: HiddenMode::All,
        sort: Sort::Unsorted,
        ..make_config(Format::OneLine, HiddenMode::All, reverse, recursive, paths)
    }
}

#[test]
fn unsorted_listing_keeps_directory_order_with_dots() {
    let mut fs = FakeFs::new();
    fs.dir("d", vec![file("b"), file(".hidden"), file("a"), file("c")]);
    assert_eq!(
        run_fs(&unsorted_config(false, false, vec!["d"]), &fs).unwrap(),
        "b\n.hidden\na\nc\n.\n..\n"
    );
}

#[test]
fn unsorted_listing_ignores_reverse() {
    let mut fs = FakeFs::new();
    fs.dir("d", vec![file("b"), file("a"), file("c")]);
    assert_eq!(
        run_fs(&unsorted_config(true, false, vec!["d"]), &fs).unwrap(),
        "b\na\nc\n.\n..\n"
    );
}

#[test]
fn unsorted_recursive_listing_visits_subdirectories_in_directory_order() {
    let mut fs = FakeFs::new();
    fs.dir("top", vec![dir_entry("z"), dir_entry("a")]);
    fs.dir("top/z", vec![]);
    fs.dir("top/a", vec![]);
    let c = Config { hidden_mode: HiddenMode::AlmostAll, ..unsorted_config(false, true, vec!["top"]) };
    assert_eq!(run_fs(&c, &fs).unwrap(), "top:\nz\na\n\ntop/z:\n\ntop/a:\n");
}

#[test]
fn human_readable_long_listing_shows_unit_sizes() {
    let mut fs = FakeFs::new();
    fs.dir(
        "h",
        vec![EntryInfo { size: 1536, blocks_512: 8, ..EntryInfo::from_name_only("f") }],
    );
    let c = Config { human_readable: true, ..long_config(vec!["h"]) };
    let out = run_fs(&c, &fs).unwrap();
    let lines: Vec<&str> = out.lines().collect();
    assert_eq!(lines[0], "total 4.0K");
    assert!(lines[1].contains(" 1.5K "), "{}", lines[1]);
}
