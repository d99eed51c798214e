use ls::{extract_format, extract_hidden_mode, extract_sort, CommandLine, Config, Format, HiddenMode, Sort};

fn flags() -> CommandLine {
    CommandLine {
        one_line: 0,
        long: 0,
        all: 0,
        almost_all: 0,
        unsorted_all: 0,
        time: 0,
        size: 0,
        reverse: false,
        directory: false,
        recursive: false,
        human_readable: false,
        paths: vec![b".".to_vec()],
    }
}

#[test]
fn no_flags_give_the_defaults() {
    let c = Config::from(&flags());
    assert_eq!(c.format, Format::Default);
    assert_eq!(c.hidden_mode, HiddenMode::Default);
    assert_eq!(c.sort, Sort::Default);
    assert!(!c.reverse && !c.list_dir && !c.recursive);
    assert_eq!(c.paths, vec![b".".to_vec()]);
}

#[test]
fn long_format_wins_over_one_line_wherever_it_stands() {
    assert_eq!(extract_format(&CommandLine { one_line: 1, ..flags() }), Format::OneLine);
    assert_eq!(extract_format(&CommandLine { long: 1, ..flags() }), Format::Long);
    assert_eq!(extract_format(&CommandLine { one_line: 2, long: 1, ..flags() }), Format::Long);
    assert_eq!(extract_format(&CommandLine { one_line: 1, long: 2, ..flags() }), Format::Long);
}

#[test]
fn last_hidden_flag_wins() {
    assert_eq!(extract_hidden_mode(&CommandLine { all: 1, almost_all: 2, ..flags() }), HiddenMode::AlmostAll);
    assert_eq!(extract_hidden_mode(&CommandLine { all: 2, almost_all: 1, ..flags() }), HiddenMode::All);
    assert_eq!(extract_hidden_mode(&CommandLine { unsorted_all: 3, almost_all: 1, ..flags() }), HiddenMode::All);
    assert_eq!(extract_hidden_mode(&CommandLine { unsorted_all: 1, almost_all: 3, ..flags() }), HiddenMode::AlmostAll);
}

#[test]
fn last_sort_flag_wins() {
    assert_eq!(extract_sort(&CommandLine { time: 1, ..flags() }), Sort::Time);
    assert_eq!(extract_sort(&CommandLine { size: 1, ..flags() }), Sort::Size);
    assert_eq!(extract_sort(&CommandLine { time: 1, size: 2, ..flags() }), Sort::Size);
    assert_eq!(extract_sort(&CommandLine { time: 2, size: 1, ..flags() }), Sort::Time);
}

#[test]
fn switches_carry_over() {
    let c = Config::from(&CommandLine {
        reverse: true,
        directory: true,
        recursive: true,
        paths: vec![b"a".to_vec(), b"b".to_vec()],
        ..flags()
    });
    assert!(c.reverse && c.list_dir && c.recursive);
    assert_eq!(c.paths, vec![b"a".to_vec(), b"b".to_vec()]);
}

#[test]
fn unsorted_all_lists_everything_unsorted() {
    let c = Config::from(&CommandLine { unsorted_all: 1, ..flags() });
    assert_eq!(c.hidden_mode, HiddenMode::All);
    assert_eq!(c.sort, Sort::Unsorted);
}

#[test]
fn last_of_time_size_and_unsorted_decides_the_sort() {
    assert_eq!(extract_sort(&CommandLine { unsorted_all: 2, time: 1, ..flags() }), Sort::Unsorted);
    assert_eq!(extract_sort(&CommandLine { unsorted_all: 1, time: 2, ..flags() }), Sort::Time);
    assert_eq!(extract_sort(&CommandLine { unsorted_all: 1, size: 3, time: 2, ..flags() }), Sort::Size);
    assert_eq!(extract_sort(&CommandLine { unsorted_all: 3, size: 2, ..flags() }), Sort::Unsorted);
}

#[test]
fn human_readable_carries_over() {
    assert!(!Config::from(&flags()).human_readable);
    assert!(Config::from(&CommandLine { human_readable: true, ..flags() }).human_readable);
}
