use std::collections::{HashMap, HashSet};

use unicol::{
    decompose, decompose_jamo, fcd_entry, get_canonical_decomp, is_excluded_from_tables,
    parse_canonical_field, parse_hex_fields, parse_table_line, parse_test_line, reorder, Weights,
};

#[test]
fn test_lines() {
    assert_eq!(parse_test_line("0041 0300"), Some(vec![0x41, 0x300]));
    assert_eq!(parse_test_line("1D4B6"), Some(vec![0x1D4B6]));
    assert_eq!(parse_test_line("D800 0061"), Some(vec![0xD800, 0x61]));
    assert_eq!(parse_test_line("# 0041"), None);
    assert_eq!(parse_test_line(""), None);
    assert_eq!(parse_test_line("00G1"), None);
    assert_eq!(parse_test_line("100000000"), None);
}

#[test]
fn hex_fields() {
    assert_eq!(parse_hex_fields("0041 0301"), Some(vec![0x41, 0x301]));
    assert_eq!(parse_hex_fields("  00e9  "), Some(vec![0xE9]));
    assert_eq!(parse_hex_fields(""), Some(vec![]));
    assert_eq!(parse_hex_fields("<compat> 0020"), None);
}

#[test]
fn table_lines() {
    let w = |variable: bool, primary: u16, secondary: u16, tertiary: u16| Weights {
        variable,
        primary,
        secondary,
        tertiary,
    };
    assert_eq!(
        parse_table_line("0041  ; [.1FA2.0020.0008] # LATIN CAPITAL LETTER A"),
        Some((vec![0x41], vec![w(false, 0x1FA2, 0x20, 0x08)]))
    );
    assert_eq!(
        parse_table_line("0020 ; [*0209.0020.0002] # SPACE"),
        Some((vec![0x20], vec![w(true, 0x0209, 0x20, 0x02)]))
    );
    assert_eq!(
        parse_table_line("004C 00B7 ; [.2076.0020.0008][.0000.0111.0002] # L WITH MIDDLE DOT"),
        Some((vec![0x4C, 0xB7], vec![w(false, 0x2076, 0x20, 0x08), w(false, 0, 0x111, 0x02)]))
    );
    assert_eq!(parse_table_line("@version 15.0.0"), None);
    assert_eq!(parse_table_line("# comment"), None);
    assert_eq!(parse_table_line(""), None);
    assert_eq!(parse_table_line("0041 [.1FA2.0020.0008]"), None);
    assert_eq!(parse_table_line("0041 ; [.1FA2.0020.0008"), None);
    assert_eq!(parse_table_line("0041 ; [+1FA2.0020.0008]"), None);
    assert_eq!(parse_table_line(" ; [.1FA2.0020.0008]"), None);
}

#[test]
fn jamo_decomposition() {
    let mut lv = HashSet::new();
    lv.insert(0xAC00);
    assert_eq!(decompose_jamo(0xAC00, &lv), vec![0x1100, 0x1161]);
    assert_eq!(decompose_jamo(0xAC01, &lv), vec![0x1100, 0x1161, 0x11A8]);
    assert_eq!(decompose_jamo(0xD7A3, &HashSet::new()), vec![0x1112, 0x1175, 0x11C2]);
}

#[test]
fn table_decomposition() {
    let mut decomp = HashMap::new();
    decomp.insert(0xE9, vec![0x65, 0x301]);
    let mut lv = HashSet::new();
    lv.insert(0xAC00);
    let mut input = vec![0x61, 0xE9, 0xAC00, 0xAC01];
    decompose(&mut input, &decomp, &lv);
    assert_eq!(input, vec![0x61, 0x65, 0x301, 0x1100, 0x1161, 0x1100, 0x1161, 0x11A8]);
}

#[test]
fn canonical_reordering() {
    let mut input = vec![0x61, 0x301, 0x316, 0x62, 0x301, 0x334, 0x316];
    reorder(&mut input);
    assert_eq!(input, vec![0x61, 0x316, 0x301, 0x62, 0x334, 0x316, 0x301]);
    let mut input = vec![0x301, 0x300, 0x316];
    reorder(&mut input);
    assert_eq!(input, vec![0x316, 0x301, 0x300]);
    let mut empty: Vec<u32> = vec![];
    reorder(&mut empty);
    assert!(empty.is_empty());
}

#[test]
fn fcd_entries() {
    assert_eq!(fcd_entry(&vec![0x65, 0x301]), 230);
    assert_eq!(fcd_entry(&vec![0x316, 0x301]), 220 * 256 + 230);
    assert_eq!(fcd_entry(&vec![0x301]), 230 * 256 + 230);
}

#[test]
fn canonical_fields() {
    assert_eq!(parse_canonical_field("0065 0301"), Some(vec![0x65, 0x301]));
    assert_eq!(parse_canonical_field("<compat> 0020 0301"), None);
    assert_eq!(parse_canonical_field(""), None);
}

#[test]
fn full_decompositions() {
    let mut direct = HashMap::new();
    direct.insert(0x1E08, vec![0xC7, 0x301]);
    direct.insert(0xC7, vec![0x43, 0x327]);
    assert_eq!(get_canonical_decomp(0x1E08, &direct, 8), vec![0x43, 0x327, 0x301]);
    assert_eq!(get_canonical_decomp(0x1E08, &direct, 1), vec![0xC7, 0x301]);
    assert_eq!(get_canonical_decomp(0x41, &direct, 8), vec![0x41]);
    assert!(is_excluded_from_tables(0xAC00));
    assert!(is_excluded_from_tables(0x4E00));
    assert!(!is_excluded_from_tables(0x1E08));
}
