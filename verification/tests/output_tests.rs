use ls::{
    columns_for_width, decimal, get_formatter, is_old, join_path, mode_string, time_pattern,
    total_kb_blocks, write_columns, compare_bytes, Config, EntryInfo, Format, Formatter,
    HiddenMode, LongFormatColumnWidths, LongFormatLine, LongFormatter, OneLineFormatter, Order,
    OutputFormatter, Sort, human_size, HumanLongFormatter, ColumnsFormatter,
};

fn text(bytes: &[u8]) -> String {
    String::from_utf8(bytes.to_vec()).unwrap()
}

fn entries_named(names: &[&str]) -> Vec<EntryInfo> {
    names.iter().map(|n| EntryInfo::from_name_only(n)).collect()
}

#[test]
fn one_line_formatter_writes_one_entry_per_line() {
    let entries: Vec<EntryInfo> = vec!["a", "b", "c"]
        .into_iter()
        .map(EntryInfo::from_name_only)
        .collect();
    let mut out = Vec::new();
    OneLineFormatter.write(&mut out, &entries);
    assert_eq!(out, b"a\nb\nc\n");
}

#[test]
fn write_columns_pads_entries_to_column_width() {
    // 4 entries, 2 columns of widths [3, 5] → 2 rows
    // row 0: entries[0]="aa"  entries[2]="ccc"
    // row 1: entries[1]="b"   entries[3]="d"
    let entries: Vec<EntryInfo> = vec!["aa", "b", "ccc", "d"]
        .into_iter()
        .map(EntryInfo::from_name_only)
        .collect();
    let mut out = Vec::new();
    write_columns(&mut out, &entries, &[3, 5]);
    assert_eq!(String::from_utf8(out).unwrap(), "aa   ccc\nb    d\n");
}

#[test]
fn long_format_line_regular_file_permissions() {
    let entry = EntryInfo { permissions: 0o644, ..EntryInfo::from_name_only("file") };
    assert_eq!(text(&LongFormatLine::from(&entry).mode), "-rw-r--r--");
}

#[test]
fn long_format_line_directory_type_char() {
    let entry = EntryInfo {
        is_dir: true,
        permissions: 0o755,
        ..EntryInfo::from_name_only("dir")
    };
    assert_eq!(text(&LongFormatLine::from(&entry).mode), "drwxr-xr-x");
}

#[test]
fn long_format_line_symlink_shows_target() {
    let entry = EntryInfo {
        is_symlink: true,
        permissions: 0o777,
        symlink_target: Some(b"target".to_vec()),
        ..EntryInfo::from_name_only("link")
    };
    let line = LongFormatLine::from(&entry);
    assert_eq!(text(&line.mode), "lrwxrwxrwx");
    assert_eq!(text(&line.name), "link -> target");
}

#[test]
fn long_format_line_columns_match_fields() {
    // uid/gid that (almost certainly) don't resolve to a real user/group,
    // so LongFormatLine falls back to their numeric representation.
    let entry = EntryInfo {
        nlink: 3,
        size: 1234,
        uid: u32::MAX,
        gid: u32::MAX,
        ..EntryInfo::from_name_only("file")
    };
    let line = LongFormatLine::from(&entry);
    assert_eq!(text(&line.nlink), "3");
    assert_eq!(text(&line.size), "1234");
    assert_eq!(text(&line.user_name), u32::MAX.to_string());
    assert_eq!(text(&line.group_name), u32::MAX.to_string());
}

#[test]
fn long_formatter_prints_total_in_1024_blocks() {
    let entries = vec![
        EntryInfo { blocks_512: 8, ..EntryInfo::from_name_only("a") },
        EntryInfo { blocks_512: 16, ..EntryInfo::from_name_only("b") },
    ];
    let mut out = Vec::new();
    LongFormatter.write(&mut out, &entries);
    let out_str = String::from_utf8(out).unwrap();
    assert!(out_str.starts_with("total 12\n"));
}

#[test]
fn total_rounds_half_kilobytes_down() {
    let entries = vec![
        EntryInfo { blocks_512: 3, ..EntryInfo::from_name_only("a") },
        EntryInfo { blocks_512: 4, ..EntryInfo::from_name_only("b") },
    ];
    assert_eq!(total_kb_blocks(&entries), 3);
    assert_eq!(total_kb_blocks(&[]), 0);
}

#[test]
fn mode_string_covers_each_bit() {
    assert_eq!(text(&mode_string(false, false, 0)), "----------");
    assert_eq!(text(&mode_string(false, true, 0o777)), "lrwxrwxrwx");
    assert_eq!(text(&mode_string(true, true, 0o750)), "drwxr-x---");
    assert_eq!(text(&mode_string(false, false, 0o100644)), "-rw-r--r--");
    assert_eq!(text(&mode_string(false, false, 0o421)), "-r---w---x");
}

#[test]
fn long_lines_align_columns() {
    let a = LongFormatLine {
        mode: b"-rw-r--r--".to_vec(),
        nlink: b"1".to_vec(),
        user_name: b"root".to_vec(),
        group_name: b"wheel".to_vec(),
        size: b"5".to_vec(),
        modified: b"Jan  1 00:00".to_vec(),
        name: b"a".to_vec(),
    };
    let b = LongFormatLine {
        mode: b"drwxr-xr-x".to_vec(),
        nlink: b"12".to_vec(),
        user_name: b"me".to_vec(),
        group_name: b"g".to_vec(),
        size: b"4096".to_vec(),
        modified: b"Feb 10  2020".to_vec(),
        name: b"dir".to_vec(),
    };
    let lines = vec![a, b];
    let widths = LongFormatColumnWidths::from_lines(&lines);
    assert_eq!(
        (widths.mode, widths.nlink, widths.user_name, widths.group_name, widths.size, widths.modified),
        (10, 2, 4, 5, 4, 12)
    );
    let mut out = Vec::new();
    for line in &lines {
        line.write(&mut out, &widths);
    }
    assert_eq!(
        text(&out),
        "-rw-r--r--  1 root wheel    5 Jan  1 00:00 a\ndrwxr-xr-x 12 me   g     4096 Feb 10  2020 dir\n"
    );
}

#[test]
fn long_line_pads_by_characters_not_bytes() {
    let line = LongFormatLine {
        mode: b"-".to_vec(),
        nlink: b"1".to_vec(),
        user_name: "é".as_bytes().to_vec(),
        group_name: b"g".to_vec(),
        size: b"0".to_vec(),
        modified: b"t".to_vec(),
        name: b"n".to_vec(),
    };
    let widths = LongFormatColumnWidths::from_lines(std::slice::from_ref(&line));
    assert_eq!(widths.user_name, 2);
    let mut out = Vec::new();
    line.write(&mut out, &widths);
    assert_eq!(text(&out), "- 1 é  g 0 t n\n");
}

#[test]
fn long_format_line_shows_invalid_utf8_name_with_replacement() {
    let entry = EntryInfo { name: vec![b'x', 0xfe], ..EntryInfo::from_name_only("") };
    let line = LongFormatLine::from(&entry);
    assert_eq!(text(&line.name), "x\u{FFFD}");
}

#[test]
fn old_files_show_the_year() {
    assert!(!is_old(0));
    assert!(!is_old(180));
    assert!(is_old(181));
    assert!(!is_old(-5));
    assert_eq!(time_pattern(true), "%b %e  %Y");
    assert_eq!(time_pattern(false), "%b %e %H:%M");
}

#[test]
fn columns_use_as_many_columns_as_fit() {
    let entries = entries_named(&["a", "bb", "ccc"]);
    assert_eq!(columns_for_width(&entries, 80), Some(vec![1, 2, 3]));
    // three columns need 1+2+3+4 = 10; two columns ([a, bb] [ccc]) need 2+3+2 = 7
    assert_eq!(columns_for_width(&entries, 9), Some(vec![2, 3]));
    assert_eq!(columns_for_width(&entries, 7), Some(vec![2, 3]));
    assert_eq!(columns_for_width(&entries, 6), None);
    assert_eq!(columns_for_width(&entries_named(&["only"]), 80), None);
    assert_eq!(columns_for_width(&[], 80), None);
}

#[test]
fn columns_drop_empty_trailing_columns() {
    // five names in four columns take two rows, which fill only three columns
    let entries = entries_named(&["a", "b", "c", "d", "e"]);
    assert_eq!(columns_for_width(&entries, 10), Some(vec![1, 1, 1]));
    let mut out = Vec::new();
    write_columns(&mut out, &entries, &[1, 1, 1]);
    // the last name of a short row still gets its column's padding
    assert_eq!(text(&out), "a  c  e\nb  d  \n");
}

#[test]
fn single_column_fallback_writes_one_name_per_row() {
    let entries = entries_named(&["x", "yy"]);
    let mut out = Vec::new();
    write_columns(&mut out, &entries, &[0]);
    assert_eq!(text(&out), "x\nyy\n");
}

#[test]
fn columns_formatter_writes_every_name() {
    let entries = entries_named(&["one", "two", "three"]);
    let mut out = Vec::new();
    ls::ColumnsFormatter.write(&mut out, &entries);
    let s = text(&out);
    assert!(s.contains("one") && s.contains("two") && s.contains("three"));
    assert!(s.ends_with('\n'));
}

#[test]
fn formatter_follows_the_configured_format() {
    let mut c = Config {
        format: Format::OneLine,
        hidden_mode: HiddenMode::Default,
        reverse: false,
        list_dir: false,
        recursive: false,
        sort: Sort::Default,
        human_readable: false,
        paths: vec![],
    };
    assert!(matches!(get_formatter(&c), Formatter::OneLine(_)));
    c.format = Format::Long;
    assert!(matches!(get_formatter(&c), Formatter::Long(_)));
    c.format = Format::Default;
    assert!(matches!(get_formatter(&c), Formatter::Columns(_)));
    c.human_readable = true;
    assert!(matches!(get_formatter(&c), Formatter::Columns(_)));
    c.format = Format::Long;
    assert!(matches!(get_formatter(&c), Formatter::HumanLong(_)));
}

#[test]
fn decimal_renders_without_leading_zeros() {
    assert_eq!(text(&decimal(0)), "0");
    assert_eq!(text(&decimal(7)), "7");
    assert_eq!(text(&decimal(10)), "10");
    assert_eq!(text(&decimal(1234)), "1234");
    assert_eq!(text(&decimal(u64::MAX)), u64::MAX.to_string());
}

#[test]
fn bytes_compare_lexicographically() {
    assert_eq!(compare_bytes(b"a", b"b"), Order::Less);
    assert_eq!(compare_bytes(b"ab", b"a"), Order::Greater);
    assert_eq!(compare_bytes(b"", b""), Order::Equal);
    assert_eq!(compare_bytes(b"", b"a"), Order::Less);
    assert_eq!(compare_bytes(b"abc", b"abd"), Order::Less);
    assert_eq!(compare_bytes(&[0xff], b"z"), Order::Greater);
}

#[test]
fn join_path_inserts_one_separator() {
    assert_eq!(join_path(b"dir", b"f"), b"dir/f".to_vec());
    assert_eq!(join_path(b"dir/", b"f"), b"dir/f".to_vec());
    assert_eq!(join_path(b"", b"f"), b"f".to_vec());
    assert_eq!(join_path(b"dir", b"/abs"), b"/abs".to_vec());
}

#[test]
fn long_format_line_shows_year_for_old_files_and_time_for_recent_ones() {
    let old = EntryInfo::from_name_only("old");
    let t = text(&LongFormatLine::from(&old).modified);
    assert!(t.ends_with("1970") || t.ends_with("1969"), "{}", t);
    assert_eq!(t.len(), 12);
    let now = std::time::SystemTime::now()
        .duration_since(std::time::UNIX_EPOCH)
        .unwrap()
        .as_secs() as i64;
    let recent = EntryInfo::from_parts("new", ls::FileTime { secs: now - 60, nanos: 0 });
    let t = text(&LongFormatLine::from(&recent).modified);
    assert!(t.contains(':'), "{}", t);
    assert_eq!(t.len(), 12);
}

#[test]
fn human_size_keeps_small_sizes_in_bytes() {
    assert_eq!(text(&human_size(0)), "0");
    assert_eq!(text(&human_size(512)), "512");
    assert_eq!(text(&human_size(1023)), "1023");
}

#[test]
fn human_size_rounds_up_to_one_decimal_below_ten() {
    assert_eq!(text(&human_size(1024)), "1.0K");
    assert_eq!(text(&human_size(1025)), "1.1K");
    assert_eq!(text(&human_size(1536)), "1.5K");
    assert_eq!(text(&human_size(2048)), "2.0K");
    assert_eq!(text(&human_size(1024 * 1024 * 3 / 2)), "1.5M");
}

#[test]
fn human_size_drops_the_decimal_from_ten_on() {
    assert_eq!(text(&human_size(10239)), "10K");
    assert_eq!(text(&human_size(10240)), "10K");
    assert_eq!(text(&human_size(123456789)), "118M");
    assert_eq!(text(&human_size(u64::MAX as u128)), "16E");
}

#[test]
fn human_size_moves_to_the_next_unit_when_rounding_reaches_1024() {
    assert_eq!(text(&human_size(1048575)), "1.0M");
    assert_eq!(text(&human_size(1048576)), "1.0M");
    assert_eq!(text(&human_size(1024u128.pow(3) - 1)), "1.0G");
}

#[test]
fn long_format_line_shows_human_sizes_when_asked() {
    let entry = EntryInfo { size: 2048, ..EntryInfo::from_name_only("file") };
    assert_eq!(text(&LongFormatLine::from_entry(&entry, true).size), "2.0K");
    assert_eq!(text(&LongFormatLine::from_entry(&entry, false).size), "2048");
    assert_eq!(text(&LongFormatLine::from(&entry).size), "2048");
}

#[test]
fn human_long_formatter_prints_total_in_units() {
    let entries = vec![
        EntryInfo { blocks_512: 8, size: 4000, ..EntryInfo::from_name_only("a") },
        EntryInfo { blocks_512: 16, size: 300, ..EntryInfo::from_name_only("b") },
    ];
    let mut out = Vec::new();
    HumanLongFormatter.write(&mut out, &entries);
    let s = text(&out);
    assert!(s.starts_with("total 12K\n"), "{}", s);
    assert!(s.contains(" 4.0K "), "{}", s);
    assert!(s.contains(" 300 "), "{}", s);
}

#[test]
fn human_long_formatter_with_no_entries_prints_zero_total() {
    let mut out = Vec::new();
    HumanLongFormatter.write(&mut out, &[]);
    assert_eq!(text(&out), "total 0\n");
}

#[test]
fn single_column_of_width_zero_is_one_name_per_line() {
    let entries = entries_named(&["alpha", "b", "", "gamma"]);
    let mut columns = Vec::new();
    write_columns(&mut columns, &entries, &[0]);
    let mut lines = Vec::new();
    OneLineFormatter.write(&mut lines, &entries);
    assert_eq!(columns, lines);
    assert_eq!(text(&columns), "alpha\nb\n\ngamma\n");
}

#[test]
fn columns_formatter_with_only_empty_names_writes_one_per_line() {
    let entries = entries_named(&["", "", ""]);
    let mut out = Vec::new();
    ColumnsFormatter.write(&mut out, &entries);
    assert_eq!(text(&out), "\n\n\n");
}

#[test]
fn columns_formatter_with_one_entry_writes_its_name() {
    let entries = entries_named(&["only"]);
    let mut out = b"x".to_vec();
    ColumnsFormatter.write(&mut out, &entries);
    assert_eq!(text(&out), "xonly\n");
}

#[test]
fn columns_without_a_layout_fall_back_to_one_name_per_line() {
    let entries = entries_named(&["aa", "b", "ccc", "d"]);
    let mut none = Vec::new();
    ColumnsFormatter.write_layout(&mut none, &entries, None);
    assert_eq!(text(&none), "aa\nb\nccc\nd\n");
    let mut empty = Vec::new();
    ColumnsFormatter.write_layout(&mut empty, &entries, Some(vec![]));
    assert_eq!(text(&empty), "aa\nb\nccc\nd\n");
    let mut laid_out = Vec::new();
    ColumnsFormatter.write_layout(&mut laid_out, &entries, Some(vec![2, 3]));
    assert_eq!(text(&laid_out), "aa  ccc\nb   d\n");
}
