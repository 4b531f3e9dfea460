use symtool::lookup::{hex8, lookup_line, SymbolTable};
use symtool::mapline::line_symaddr;
use symtool::update::{apply_edits, rename_line, rename_table, update_map, Edit};

fn chars(s: &str) -> Vec<char> {
    s.chars().collect()
}

fn text(v: &[char]) -> String {
    v.iter().collect()
}

fn parse(line: &str) -> Option<(u32, usize, String, usize, usize)> {
    let v = chars(line);
    line_symaddr(&v).map(|sa| {
        assert_eq!(sa.addr_range.end, sa.addr_range.start + 8);
        (sa.addr, sa.addr_range.start, text(sa.symbol), sa.symbol_range.start, sa.symbol_range.end)
    })
}

#[test]
fn parses_address_then_symbol() {
    assert_eq!(
        parse("80010000 my_symbol_name"),
        Some((0x80010000, 0, "my_symbol_name".to_string(), 9, 23))
    );
}

#[test]
fn parses_symbol_then_address() {
    assert_eq!(parse("new_name 80010000"), Some((0x80010000, 9, "new_name".to_string(), 0, 8)));
}

#[test]
fn address_below_window_rejected() {
    assert_eq!(parse("7FFFFFFF tag"), None);
}

#[test]
fn address_at_window_end_rejected() {
    assert_eq!(parse("81800000 tag"), None);
}

#[test]
fn address_at_window_start_accepted() {
    assert_eq!(parse("80000000 tag"), Some((0x80000000, 0, "tag".to_string(), 9, 12)));
}

#[test]
fn leftmost_address_in_window_wins() {
    let r = parse("7FFFFFFF 81800000 80000010 80000020 sym").unwrap();
    assert_eq!(r.0, 0x80000010);
    assert_eq!(r.1, 18);
    assert_eq!(r.2, "sym");
}

#[test]
fn lowercase_hex_address() {
    assert_eq!(parse("8001abcd foo"), Some((0x8001ABCD, 0, "foo".to_string(), 9, 12)));
}

#[test]
fn address_inside_longer_hex_run() {
    // the first window, 08001000, is out of range; the next one is taken
    let r = parse("080010000 sym").unwrap();
    assert_eq!(r.0, 0x80010000);
    assert_eq!(r.1, 1);
}

#[test]
fn line_without_symbol_is_none() {
    assert_eq!(parse("80010000 1234"), None);
    assert_eq!(parse("80010000"), None);
}

#[test]
fn line_without_address_is_none() {
    assert_eq!(parse("just words"), None);
    assert_eq!(parse(""), None);
}

#[test]
fn hex_prefix_symbol_starts_at_x() {
    assert_eq!(parse("0x80010000 name"), Some((0x80010000, 2, "x80010000".to_string(), 1, 10)));
}

#[test]
fn digit_run_skips_following_hex_letters() {
    // after a digit the hex letters are skipped, `_` starts the symbol
    assert_eq!(parse("1abc_def 80010000"), Some((0x80010000, 9, "_def".to_string(), 4, 8)));
}

#[test]
fn non_ascii_numeric_starts_hex_skip() {
    assert_eq!(parse("\u{0663}abc sym 80010000"), Some((0x80010000, 9, "sym".to_string(), 5, 8)));
}

#[test]
fn non_ascii_letter_is_passed_over() {
    assert_eq!(parse("\u{00e9}abc 80010000"), Some((0x80010000, 5, "abc".to_string(), 1, 4)));
}

#[test]
fn address_lookup_end_to_end() {
    let map = chars("80010000 my_symbol_name\n");
    let table = SymbolTable::from_map(&map);
    let line = lookup_line(&table, &chars("my_symbol_name")).unwrap();
    assert_eq!(text(&line), "my_symbol_name 80010000");
}

#[test]
fn address_lookup_unknown_symbol() {
    let map = chars("80010000 my_symbol_name\n");
    let table = SymbolTable::from_map(&map);
    assert_eq!(lookup_line(&table, &chars("other")), None);
    assert_eq!(table.get(&chars("my_symbol")), None);
}

#[test]
fn address_lookup_later_line_wins() {
    let map = chars("80010000 f\r\nnothing here\n80020000 f\n80030000 g");
    let table = SymbolTable::from_map(&map);
    assert_eq!(table.get(&chars("f")), Some(0x80020000));
    assert_eq!(table.get(&chars("g")), Some(0x80030000));
}

#[test]
fn hex8_pads_and_uses_upper_case() {
    assert_eq!(text(&hex8(0x8001ABCD)), "8001ABCD");
    assert_eq!(text(&hex8(0xF)), "0000000F");
    assert_eq!(text(&hex8(0)), "00000000");
    assert_eq!(text(&hex8(0xFFFFFFFF)), "FFFFFFFF");
}

#[test]
fn update_end_to_end() {
    let table = rename_table(&chars("new_name 80010000"));
    let r = update_map(&table, &chars("80010000 old_name\n"));
    assert_eq!(text(&r.text), "80010000 new_name\n");
    assert_eq!(r.renames.len(), 1);
    let (old, new) = &r.renames[0];
    assert_eq!(text(&rename_line(old, new)), "old_name -> new_name");
}

#[test]
fn update_without_addresses_changes_nothing() {
    let table = rename_table(&chars("no address here\nnor 7FFFFFFF here\n"));
    assert!(table.is_empty());
    let map = chars("80010000 old_name\n");
    let r = update_map(&table, &map);
    assert_eq!(r.text, map);
    assert!(r.renames.is_empty());
}

#[test]
fn update_to_same_name_keeps_text_and_reports() {
    let table = rename_table(&chars("same 80010000\n"));
    let map = chars("80010000 same extra\n");
    let r = update_map(&table, &map);
    assert_eq!(r.text, map);
    assert_eq!(r.renames.len(), 1);
    assert_eq!(text(&r.renames[0].0), "same");
    assert_eq!(text(&r.renames[0].1), "same");
}

#[test]
fn update_reports_from_end_to_start() {
    let table = rename_table(&chars("longer_name_a 80010000\ny 80010004\n"));
    let r = update_map(&table, &chars("80010000 a\nkeep 80010008 me\n80010004 bb\n"));
    assert_eq!(text(&r.text), "80010000 longer_name_a\nkeep 80010008 me\n80010004 y\n");
    let pairs: Vec<(String, String)> =
        r.renames.iter().map(|(o, n)| (text(o), text(n))).collect();
    assert_eq!(
        pairs,
        vec![("bb".to_string(), "y".to_string()), ("a".to_string(), "longer_name_a".to_string())]
    );
}

#[test]
fn rename_table_later_line_wins() {
    let table = rename_table(&chars("a 80010000\nb 80010000\nc 80010004"));
    assert_eq!(table.len(), 2);
    assert_eq!(text(&table[&0x80010000]), "b");
    assert_eq!(text(&table[&0x80010004]), "c");
}

#[test]
fn update_first_line_without_newline() {
    let table = rename_table(&chars("n 80010000"));
    let r = update_map(&table, &chars("80010000 o"));
    assert_eq!(text(&r.text), "80010000 n");
}

#[test]
fn apply_edits_keeps_other_characters() {
    let t = chars("abcdef");
    let edits = vec![
        Edit { start: 1, end: 2, text: chars("XY") },
        Edit { start: 4, end: 4, text: chars("-") },
        Edit { start: 5, end: 6, text: chars("") },
    ];
    assert_eq!(text(&apply_edits(&t, &edits)), "aXYcd-e");
    assert_eq!(text(&apply_edits(&t, &[])), "abcdef");
}
