use phashgen::symbol_table::{hex_addr, load_symbol_table, lookup, trim_bytes};
use phashgen::errors::usize_to_string;

#[test]
fn hex_addresses_parse_like_the_standard_radix_parse() {
    assert_eq!(hex_addr(b"0"), Some(0));
    assert_eq!(hex_addr(b"FFFF"), Some(0xFFFF));
    assert_eq!(hex_addr(b"beef"), Some(0xBEEF));
    assert_eq!(hex_addr(b"+10"), Some(0x10));
    assert_eq!(hex_addr(b"0042"), Some(0x42));
    assert_eq!(hex_addr(b""), None);
    assert_eq!(hex_addr(b"+"), None);
    assert_eq!(hex_addr(b"10000"), None);  // out of 16-bit range
    assert_eq!(hex_addr(b"12G4"), None);
    assert_eq!(hex_addr(b"-1"), None);
    assert_eq!(hex_addr(b" 12"), None);
}

#[test]
fn trim_strips_ascii_whitespace_at_both_ends() {
    assert_eq!(trim_bytes(b"  DUP\t\r\n"), b"DUP".to_vec());
    assert_eq!(trim_bytes(b"DUP"), b"DUP".to_vec());
    assert_eq!(trim_bytes(b"  \t "), Vec::<u8>::new());
    assert_eq!(trim_bytes(b""), Vec::<u8>::new());
    assert_eq!(trim_bytes(b"A B"), b"A B".to_vec());
}

#[test]
fn symbol_lines_parse_into_address_name_pairs() {
    let text = b"DUP 1234\nSWAP  BEEF\r\n\nEXIT 0001\n";
    let pairs = load_symbol_table(text).unwrap();
    assert_eq!(pairs.len(), 3);
    assert_eq!(pairs[0], (0x1234, b"DUP".to_vec()));
    assert_eq!(pairs[1], (0xBEEF, b"SWAP".to_vec()));
    assert_eq!(pairs[2], (0x0001, b"EXIT".to_vec()));
}

#[test]
fn bookkeeping_symbols_and_blank_lines_are_skipped() {
    let text = b"noname.12 1000\nLINK_DUP 2000\nLAST_WORD 3000\n   \nDUP 4000\n";
    let pairs = load_symbol_table(text).unwrap();
    assert_eq!(pairs.len(), 1);
    assert_eq!(pairs[0], (0x4000, b"DUP".to_vec()));
}

#[test]
fn an_invalid_address_is_a_fatal_error() {
    assert!(load_symbol_table(b"DUP xyzz\n").is_err());
    assert!(load_symbol_table(b"DUP 123456\n").is_err());
}

#[test]
fn a_name_without_an_address_is_skipped() {
    let pairs = load_symbol_table(b"LONESYMBOL\nDUP 10\n").unwrap();
    assert_eq!(pairs.len(), 1);
    assert_eq!(pairs[0], (0x10, b"DUP".to_vec()));
}

#[test]
fn final_line_without_newline_still_counts() {
    let pairs = load_symbol_table(b"DUP 10\nDROP 20").unwrap();
    assert_eq!(pairs.len(), 2);
    assert_eq!(pairs[1], (0x20, b"DROP".to_vec()));
}

#[test]
fn lookup_prefers_the_latest_line() {
    let pairs = load_symbol_table(b"OLD 10\nNEW 10\nOTHER 20\n").unwrap();
    assert_eq!(lookup(&pairs, 0x10), Some(&b"NEW".to_vec()));
    assert_eq!(lookup(&pairs, 0x20), Some(&b"OTHER".to_vec()));
    assert_eq!(lookup(&pairs, 0x30), None);
}

#[test]
fn decimal_rendering_is_exact() {
    assert_eq!(usize_to_string(0), "0");
    assert_eq!(usize_to_string(7), "7");
    assert_eq!(usize_to_string(10), "10");
    assert_eq!(usize_to_string(1234), "1234");
    assert_eq!(usize_to_string(0x8000), "32768");
    assert_eq!(usize_to_string(usize::MAX), usize::MAX.to_string());
}
