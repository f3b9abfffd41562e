use std::io::Write;

use flate2::write::GzEncoder;
use flate2::Compression;

use ip_more_less_specific::dump::{
    build_ipnet_trie, build_trie_from_prefixes, parse_riswhois_file, prefixes_from_dump_text,
    DumpError, RISWHOIS_HEADER_LINES,
};
use ip_more_less_specific::prefix::{host_prefix, IpPrefix};
use ip_more_less_specific::scalar::{
    next_not_distinct, not_distinct, FirstLessSpecific, FirstLessSpecificState,
};
use ip_more_less_specific::trie::LookupTrie;

fn header() -> String {
    let mut text = String::new();
    for i in 0..RISWHOIS_HEADER_LINES {
        text.push_str(&format!("% header line {}\twith\ttabs\n", i));
    }
    text
}

fn gzip(bytes: &[u8]) -> Vec<u8> {
    let mut enc = GzEncoder::new(Vec::new(), Compression::default());
    enc.write_all(bytes).unwrap();
    enc.finish().unwrap()
}

fn strings(items: &[&str]) -> Vec<String> {
    items.iter().map(|s| s.to_string()).collect()
}

fn v4(a: u8, b: u8, c: u8, d: u8) -> Option<(bool, u128)> {
    Some((false, u32::from_be_bytes([a, b, c, d]) as u128))
}

fn sample_trie() -> LookupTrie {
    build_trie_from_prefixes(strings(&[
        "1.0.0.0/8",
        "1.1.1.0/24",
        "not a prefix",
        "2001:db8::/32",
        "2001:db8:dead::/48",
    ]))
    .unwrap()
}

#[test]
fn dump_text_skips_header_and_takes_second_column() {
    let text = format!(
        "{}13335\t1.1.1.0/24\t323\n15169\t8.8.8.0/24\t300\r\nno tab here\n64496\t2001:db8::/32",
        header()
    );
    let prefixes = prefixes_from_dump_text(&text);
    assert_eq!(prefixes, strings(&["1.1.1.0/24", "8.8.8.0/24", "2001:db8::/32"]));
}

#[test]
fn dump_text_with_only_header_gives_nothing() {
    assert_eq!(prefixes_from_dump_text(&header()), Vec::<String>::new());
    assert_eq!(prefixes_from_dump_text(""), Vec::<String>::new());
}

#[test]
fn dump_text_edge_columns() {
    // a line with one tab takes the rest of the line; an empty second
    // column stays; "\r" is removed only before "\n".
    let text = format!("{}a\tb\r\nc\t\td\ne\t\n\tf\ng\th\r", header());
    let prefixes = prefixes_from_dump_text(&text);
    assert_eq!(prefixes, strings(&["b", "", "", "f", "h\r"]));
}

#[test]
fn dump_text_trailing_newline_adds_no_line() {
    let text = format!("{}1\tx\n\n", header());
    assert_eq!(prefixes_from_dump_text(&text), strings(&["x"]));
}

#[test]
fn parse_gzip_dump() {
    let text = format!("{}13335\t1.1.1.0/24\t323\n", header());
    let data = gzip(text.as_bytes());
    assert_eq!(parse_riswhois_file(&data), Ok(strings(&["1.1.1.0/24"])));
}

#[test]
fn parse_gzip_dump_rejects_garbage() {
    assert_eq!(parse_riswhois_file(b"this is not gzip"), Err(DumpError::Decompress));
}

#[test]
fn parse_gzip_dump_rejects_invalid_utf8() {
    let data = gzip(&[0x66, 0xff, 0xfe, 0x0a]);
    assert_eq!(parse_riswhois_file(&data), Err(DumpError::InvalidUtf8));
}

#[test]
fn lookup_address_finds_longest_prefix() {
    let trie = sample_trie();
    let p = trie.lookup("1.1.1.1", v4(1, 1, 1, 1)).unwrap();
    assert_eq!(p, IpPrefix { v6: false, addr: 0x0101_0100, len: 24 });
    let p = trie.lookup("1.2.3.4", v4(1, 2, 3, 4)).unwrap();
    assert_eq!(p, IpPrefix { v6: false, addr: 0x0100_0000, len: 8 });
    assert!(trie.lookup("8.8.8.8", v4(8, 8, 8, 8)).is_none());
}

#[test]
fn lookup_network_text() {
    let trie = sample_trie();
    assert_eq!(trie.lookup("1.1.1.128/25", None).unwrap().len, 24);
    assert_eq!(trie.lookup("1.1.0.0/16", None).unwrap().len, 8);
    let p = trie.lookup("2001:db8:dead:beef::/64", None).unwrap();
    assert_eq!(p, IpPrefix { v6: true, addr: 0x2001_0db8_dead_0000_0000_0000_0000_0000, len: 48 });
    // a slash in the last four bytes but not a network
    assert!(trie.lookup("1.1.1.1/99", None).is_none());
}

#[test]
fn lookup_without_address_reading_is_none() {
    let trie = sample_trie();
    assert!(trie.lookup("not an address", None).is_none());
}

#[test]
fn lookup_ipv6_address() {
    let trie = sample_trie();
    let addr: u128 = 0x2001_0db8_dead_beef_0000_0000_0000_0001;
    let p = trie.lookup("2001:db8:dead:beef::1", Some((true, addr))).unwrap();
    assert_eq!(p.len, 48);
    assert!(p.v6);
}

#[test]
fn readme_example() {
    let trie = build_trie_from_prefixes(strings(&["1.1.1.0/24"])).unwrap();
    let state = FirstLessSpecificState::new(trie);
    let out = FirstLessSpecific::invoke(&state, &column(&[Some("1.1.1.1")]), &vec![v4(1, 1, 1, 1)]);
    assert_eq!(out, column(&[Some("1.1.1.0/24")]));
}

#[test]
fn later_duplicate_replaces_earlier() {
    let trie = build_trie_from_prefixes(strings(&["10.0.0.0/8", "10.1.2.3/8"])).unwrap();
    let p = trie.lookup("10.9.9.9", v4(10, 9, 9, 9)).unwrap();
    assert_eq!(p, IpPrefix { v6: false, addr: 0x0a01_0203, len: 8 });
}

#[test]
fn empty_table_finds_nothing() {
    let trie = build_trie_from_prefixes(Vec::new()).unwrap();
    assert!(trie.lookup("1.1.1.1", v4(1, 1, 1, 1)).is_none());
}

#[test]
fn host_prefix_lengths() {
    assert_eq!(host_prefix(false, 7).len, 32);
    assert_eq!(host_prefix(true, 7).len, 128);
}

#[test]
fn combined_build_orders_v4_first() {
    let t = build_ipnet_trie(Ok(strings(&["9.0.0.0/8"])), Ok(strings(&["2001:db8::/32"]))).unwrap();
    assert!(t.lookup("9.9.9.9", v4(9, 9, 9, 9)).is_some());
    assert!(t.lookup("2001:db8::1/128", None).is_some());
}

#[test]
fn combined_build_reports_v4_error_first() {
    let r = build_ipnet_trie(
        Err(DumpError::Download("v4".to_string())),
        Err(DumpError::Download("v6".to_string())),
    );
    assert_eq!(r.err(), Some(DumpError::Download("v4".to_string())));
    let r = build_ipnet_trie(Ok(Vec::new()), Err(DumpError::InvalidUtf8));
    assert_eq!(r.err(), Some(DumpError::InvalidUtf8));
}

#[test]
fn not_distinct_cells() {
    assert!(not_distinct(&None, &None));
    assert!(not_distinct(&Some("a".to_string()), &Some("a".to_string())));
    assert!(!not_distinct(&Some("a".to_string()), &Some("b".to_string())));
    assert!(!not_distinct(&Some("a".to_string()), &None));
    let cells = vec![Some("a".to_string()), Some("a".to_string()), None, None, Some("b".to_string())];
    assert_eq!(next_not_distinct(&cells), vec![true, false, true, false]);
}

fn column(items: &[Option<&str>]) -> Vec<Option<String>> {
    items.iter().map(|c| c.map(|s| s.to_string())).collect()
}

#[test]
fn invoke_maps_each_cell() {
    let state = FirstLessSpecificState::new(sample_trie());
    let input = column(&[
        Some("1.1.1.1"),
        Some("1.1.1.1"),
        Some("1.1.1.1"),
        None,
        None,
        Some("1.2.3.4"),
        Some("8.8.8.8"),
        Some("1.1.1.1"),
        Some("1.1.1.128/25"),
    ]);
    let addrs = vec![
        v4(1, 1, 1, 1),
        v4(1, 1, 1, 1),
        v4(1, 1, 1, 1),
        None,
        None,
        v4(1, 2, 3, 4),
        v4(8, 8, 8, 8),
        v4(1, 1, 1, 1),
        None,
    ];
    let out = FirstLessSpecific::invoke(&state, &input, &addrs);
    assert_eq!(
        out,
        column(&[
            Some("1.1.1.0/24"),
            Some("1.1.1.0/24"),
            Some("1.1.1.0/24"),
            None,
            None,
            Some("1.0.0.0/8"),
            None,
            Some("1.1.1.0/24"),
            Some("1.1.1.0/24"),
        ])
    );
}

#[test]
fn invoke_single_cell_and_trailing_run() {
    let state = FirstLessSpecificState::new(sample_trie());
    let out = FirstLessSpecific::invoke(&state, &column(&[Some("1.2.3.4")]), &vec![v4(1, 2, 3, 4)]);
    assert_eq!(out, column(&[Some("1.0.0.0/8")]));
    let out = FirstLessSpecific::invoke(&state, &column(&[None, None, None]), &vec![None, None, None]);
    assert_eq!(out, column(&[None, None, None]));
}

#[test]
fn stored_network_finds_itself() {
    let trie = sample_trie();
    let state = FirstLessSpecificState::new(trie);
    let texts = ["1.0.0.0/8", "1.1.1.0/24", "2001:db8::/32", "2001:db8:dead::/48"];
    let input: Vec<Option<String>> = texts.iter().map(|t| Some(t.to_string())).collect();
    let out = FirstLessSpecific::invoke(&state, &input, &vec![None; 4]);
    assert_eq!(out, input);
}

#[test]
fn output_is_the_network_text_whatever_the_dump_wrote() {
    let a = build_trie_from_prefixes(strings(&["2001:db8::/32", "2001:DB8::/32"])).unwrap();
    let b = build_trie_from_prefixes(strings(&["2001:DB8::/32", "2001:db8::/32"])).unwrap();
    let input = column(&[Some("2001:db8::1/128")]);
    let out_a = FirstLessSpecific::invoke(&FirstLessSpecificState::new(a), &input, &vec![None]);
    let out_b = FirstLessSpecific::invoke(&FirstLessSpecificState::new(b), &input, &vec![None]);
    assert_eq!(out_a, column(&[Some("2001:db8::/32")]));
    assert_eq!(out_a, out_b);
}

#[test]
fn table_counts_per_family() {
    assert_eq!(sample_trie().len(), (2, 2));
    let t = build_trie_from_prefixes(strings(&["10.0.0.0/8", "10.1.2.3/8", "10.0.0.0/9"])).unwrap();
    assert_eq!(t.len(), (2, 0));
}
