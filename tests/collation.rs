use std::cmp::Ordering;
use std::collections::HashMap;

use unicol::{
    collate, collate_no_tiebreak, fcd, fcd_entry, find_prefix, get_cea,
    get_implicit_a, get_implicit_b, get_nfd, get_sort_key, get_weights_shifting, multi_key,
    sort_key, trim_prefix, CollationElement, CollationOptions, CollationTables, KeyTables,
    KeysSource, Weights,
};

const LETTER_BASE: u16 = 0x1FA2;
const KA: u16 = 0x3D5A;

fn w(variable: bool, primary: u16, secondary: u16, tertiary: u16) -> Weights {
    Weights { variable, primary, secondary, tertiary }
}

fn letter(c: char) -> u16 {
    LETTER_BASE + 0x20 * ((c.to_ascii_lowercase() as u16) - 0x61)
}

/// Weights for the code points below 183, shaped as the root table shapes them:
/// controls ignorable, space and punctuation variable, digits before letters,
/// capitals differing from small letters at the third level.
fn low_weights(c: u32) -> Weights {
    match c {
        0x00..=0x1F | 0x7F..=0x9F => w(false, 0, 0, 0),
        0x20 => w(true, 0x0209, 0x20, 0x02),
        0x2D => w(true, 0x020D, 0x20, 0x02),
        0x21..=0x2F | 0x3A..=0x40 | 0x5B..=0x60 | 0x7B..=0x7E => w(true, 0x0220 + c as u16, 0x20, 0x02),
        0x30..=0x39 => w(false, 0x1F98 + (c - 0x30) as u16, 0x20, 0x02),
        0x41..=0x5A => w(false, letter(char::from_u32(c).unwrap()), 0x20, 0x08),
        0x61..=0x7A => w(false, letter(char::from_u32(c).unwrap()), 0x20, 0x02),
        0xA9 => w(false, 0x05E2, 0x20, 0x02),
        _ => w(false, 0x0500 + c as u16, 0x20, 0x02),
    }
}

fn key_tables() -> KeyTables {
    let mut low: HashMap<u32, Weights> = HashMap::new();
    let mut singles: HashMap<u32, Vec<Weights>> = HashMap::new();
    for c in 0u32..183 {
        if c != 76 && c != 108 {
            low.insert(c, low_weights(c));
        }
        singles.insert(c, vec![low_weights(c)]);
    }
    let a = letter('a');
    let c = letter('c');
    let e = letter('e');
    singles.insert(0x00E4, vec![w(false, a, 0x20, 0x02), w(false, 0, 0x2B, 0x02)]);
    singles.insert(0x00E7, vec![w(false, c, 0x20, 0x02), w(false, 0, 0x30, 0x02)]);
    singles.insert(0x00E9, vec![w(false, e, 0x20, 0x02), w(false, 0, 0x24, 0x02)]);
    singles.insert(0x0301, vec![w(false, 0, 0x24, 0x02)]);
    singles.insert(0x0306, vec![w(false, 0, 0x25, 0x02)]);
    singles.insert(0x0308, vec![w(false, 0, 0x2B, 0x02)]);
    singles.insert(0x0327, vec![w(false, 0, 0x30, 0x02)]);
    singles.insert(0x0334, vec![w(false, 0, 0x71, 0x02)]);
    singles.insert(0x0438, vec![w(false, 0x2300, 0x20, 0x02)]);
    singles.insert(0x1D4B6, vec![w(false, a, 0x20, 0x05)]);
    singles.insert(0x1D552, vec![w(false, a, 0x20, 0x05)]);
    singles.insert(0x304B, vec![w(false, KA, 0x20, 0x0E)]);
    singles.insert(0x30F5, vec![w(false, KA, 0x20, 0x0F)]);
    singles.insert(0x30AB, vec![w(false, KA, 0x20, 0x11)]);
    singles.insert(0xFF76, vec![w(false, KA, 0x20, 0x12)]);
    singles.insert(0x304C, vec![w(false, KA, 0x20, 0x0E), w(false, 0, 0x37, 0x02)]);
    singles.insert(0x30AC, vec![w(false, KA, 0x20, 0x11), w(false, 0, 0x37, 0x02)]);
    singles.insert(0x3099, vec![w(false, 0, 0x37, 0x02)]);
    let mut multis: HashMap<u64, Vec<Weights>> = HashMap::new();
    multis.insert(multi_key(&vec![0x0438, 0x0306]).unwrap(), vec![w(false, 0x2301, 0x20, 0x02)]);
    multis.insert(multi_key(&vec![0x006C, 0x00B7]).unwrap(), vec![w(false, 0x2400, 0x20, 0x02)]);
    KeyTables::new(low, singles, multis).unwrap()
}

fn tables() -> CollationTables {
    let mut fcd_table: HashMap<u32, u16> = HashMap::new();
    fcd_table.insert(0x00E4, 230);
    fcd_table.insert(0x00E7, 202);
    fcd_table.insert(0x00E9, 230);
    fcd_table.insert(0x304C, 8);
    fcd_table.insert(0x30AC, 8);
    CollationTables { ducet: key_tables(), cldr: key_tables(), fcd: fcd_table }
}

fn ce(primary: u16, secondary: u16, tertiary: u16, quaternary: u16) -> CollationElement {
    CollationElement { primary, secondary, tertiary, quaternary }
}

const DUCET_SHIFTED: CollationOptions = CollationOptions { keys_source: KeysSource::Ducet, shifting: true };
const DUCET_PLAIN: CollationOptions = CollationOptions { keys_source: KeysSource::Ducet, shifting: false };
const CLDR_SHIFTED: CollationOptions = CollationOptions { keys_source: KeysSource::Cldr, shifting: true };
const CLDR_PLAIN: CollationOptions = CollationOptions { keys_source: KeysSource::Cldr, shifting: false };

#[test]
fn deluge_shifted() {
    let tables = tables();
    let mut scrambled = [
        "demark", "de-luge", "deluge", "de-Luge", "de luge", "de-luge", "deLuge", "de Luge",
        "de-Luge", "death",
    ];

    let options = CollationOptions {
        keys_source: KeysSource::Ducet,
        shifting: true,
    };

    scrambled.sort_by(|a, b| collate(a, b, options, &tables));

    let sorted = [
        "death", "de luge", "de-luge", "de-luge", "deluge", "de Luge", "de-Luge", "de-Luge",
        "deLuge", "demark",
    ];

    assert_eq!(scrambled, sorted);
}

#[test]
fn multi_script() {
    let tables = tables();
    let mut scrambled = [
        "ｶ",
        "ヵ",
        "abc",
        "abç",
        "ab©",
        "𝒶bc",
        "abC",
        "𝕒bc",
        "File-3",
        "ガ",
        "が",
        "äbc",
        "カ",
        "か",
        "Abc",
        "file-12",
        "filé-110",
    ];

    let options = CollationOptions {
        keys_source: KeysSource::Ducet,
        shifting: true,
    };

    scrambled.sort_by(|a, b| collate(a, b, options, &tables));

    let sorted = [
        "ab©",
        "abc",
        "abC",
        "𝒶bc",
        "𝕒bc",
        "Abc",
        "abç",
        "äbc",
        "filé-110",
        "file-12",
        "File-3",
        "か",
        "ヵ",
        "カ",
        "ｶ",
        "が",
        "ガ",
    ];

    assert_eq!(scrambled, sorted);
}

#[test]
fn empty_input_has_only_separators() {
    let tables = tables();
    assert_eq!(sort_key("", DUCET_PLAIN, &tables), vec![0, 0]);
    assert_eq!(sort_key("", DUCET_SHIFTED, &tables), vec![0, 0, 0]);
}

#[test]
fn included_unassigned_uses_unassigned_base() {
    assert_eq!(get_implicit_a(177_977, false).primary, 64_448 + 5);
    assert_eq!(get_implicit_a(177_976, false).primary, 64_384 + 5);
    assert_eq!(get_implicit_b(177_977, false).primary, ((177_977u32 & 0x7FFF) | 0x8000) as u16);
}

#[test]
fn implicit_weights_by_range() {
    assert_eq!(get_implicit_a(0x4E00, false), ce(64_320, 32, 2, 0));
    assert_eq!(get_implicit_b(0x4E00, false), ce(0xCE00, 0, 0, 0));
    assert_eq!(get_implicit_a(0x3400, true), ce(64_384, 32, 2, 0xFFFF));
    assert_eq!(get_implicit_a(94_208, false).primary, 64_256);
    assert_eq!(get_implicit_b(94_208, false).primary, 0x8000);
    assert_eq!(get_implicit_a(101_120, false).primary, 64_258);
    assert_eq!(get_implicit_b(101_121, false).primary, 0x8001);
    assert_eq!(get_implicit_a(101_700, false).primary, 64_256);
    assert_eq!(get_implicit_b(101_700, false).primary, (0x8000 + 101_700 - 94_208) as u16);
    assert_eq!(get_implicit_a(110_961, false).primary, 64_257);
    assert_eq!(get_implicit_b(110_961, false).primary, 0x8001);
    assert_eq!(get_implicit_a(0xE000, false).primary, 64_448 + 1);
    assert_eq!(get_implicit_b(0xE000, true), ce(0xE000, 0, 0, 0xFFFF));
}

#[test]
fn ignorable_after_variable_is_fully_ignorable() {
    let tables = tables();
    let mut cv = vec![0x2D, 0x0301, 0x0301, 0x61, 0x0301];
    let cea = get_cea(&mut cv, DUCET_SHIFTED, &tables);
    let a = letter('a');
    assert_eq!(
        cea,
        vec![
            ce(0, 0, 0, 0x020D),
            ce(0, 0, 0, 0),
            ce(0, 0, 0, 0),
            ce(a, 0x20, 0x02, 0xFFFF),
            ce(0, 0x24, 0x02, 0xFFFF),
        ]
    );
}

#[test]
fn weights_shifting_cases() {
    assert_eq!(get_weights_shifting(&w(false, 0, 0, 0), true), ce(0, 0, 0, 0));
    assert_eq!(get_weights_shifting(&w(true, 0x209, 0x20, 2), false), ce(0, 0, 0, 0x209));
    assert_eq!(get_weights_shifting(&w(false, 0, 0x24, 2), true), ce(0, 0, 0, 0));
    assert_eq!(get_weights_shifting(&w(false, 0, 0x24, 2), false), ce(0, 0x24, 2, 0xFFFF));
    assert_eq!(get_weights_shifting(&w(false, 0x1FA2, 0x20, 2), true), ce(0x1FA2, 0x20, 2, 0xFFFF));
    assert_eq!(Weights::new(), w(false, 0, 0, 0));
    assert_eq!(Weights::default(), Weights::new());
}

#[test]
fn contraction_starters_at_end_take_singles_path() {
    let tables = tables();
    let mut cv = vec![108];
    assert_eq!(get_cea(&mut cv, DUCET_PLAIN, &tables), vec![ce(letter('l'), 0x20, 0x02, 0)]);
    let mut cv = vec![3_270];
    assert_eq!(
        get_cea(&mut cv, DUCET_PLAIN, &tables),
        vec![ce(64_448, 32, 2, 0), ce(3_270 | 0x8000, 0, 0, 0)]
    );
    let mut cv = vec![0x6C, 0xB7];
    assert_eq!(get_cea(&mut cv, DUCET_PLAIN, &tables), vec![ce(0x2400, 0x20, 0x02, 0)]);
}

#[test]
fn discontiguous_match_across_one_non_starter() {
    let tables = tables();
    let mut cv = vec![0x0438, 0x0334, 0x0306];
    let cea = get_cea(&mut cv, DUCET_PLAIN, &tables);
    assert_eq!(cea, vec![ce(0x2301, 0x20, 0x02, 0), ce(0, 0x71, 0x02, 0)]);
    assert_eq!(cv, vec![0x0438, 0x0334]);
}

#[test]
fn discontiguous_match_needs_increasing_classes() {
    let tables = tables();
    let mut cv = vec![0x0438, 0x0301, 0x0306];
    let cea = get_cea(&mut cv, DUCET_PLAIN, &tables);
    assert_eq!(cea, vec![ce(0x2300, 0x20, 0x02, 0), ce(0, 0x24, 0x02, 0), ce(0, 0x25, 0x02, 0)]);
    assert_eq!(cv, vec![0x0438, 0x0301, 0x0306]);
}

#[test]
fn cldr_lower_before_upper() {
    let tables = tables();
    assert_eq!(collate("a", "A", CLDR_SHIFTED, &tables), Ordering::Less);
    assert_eq!(collate_no_tiebreak("a", "a", CLDR_SHIFTED, &tables), Ordering::Equal);
}

#[test]
fn sort_key_of_abc() {
    let tables = tables();
    let (a, b, c) = (letter('a'), letter('b'), letter('c'));
    assert_eq!(
        sort_key("abc", CLDR_PLAIN, &tables),
        vec![a, b, c, 0, 0x20, 0x20, 0x20, 0, 2, 2, 2]
    );
}

#[test]
fn collate_antisymmetric_and_reflexive() {
    let tables = tables();
    let words = ["abc", "abC", "äbc", "de-luge", "deluge", "か", "が", "", "丁"];
    for a in words {
        assert_eq!(collate(a, a, DUCET_SHIFTED, &tables), Ordering::Equal);
        for b in words {
            assert_eq!(collate(a, b, DUCET_SHIFTED, &tables), collate(b, a, DUCET_SHIFTED, &tables).reverse());
            assert_eq!(
                collate_no_tiebreak(a, b, CLDR_PLAIN, &tables),
                collate_no_tiebreak(b, a, CLDR_PLAIN, &tables).reverse()
            );
        }
    }
}

#[test]
fn sort_keys_order_as_collation() {
    let tables = tables();
    let pairs = [("abc", "abC"), ("death", "deluge"), ("de luge", "de-luge"), ("ab©", "abc")];
    for (a, b) in pairs {
        let ka = sort_key(a, DUCET_SHIFTED, &tables);
        let kb = sort_key(b, DUCET_SHIFTED, &tables);
        assert_eq!(ka.cmp(&kb), collate_no_tiebreak(a, b, DUCET_SHIFTED, &tables));
    }
}

#[test]
fn canonically_equivalent_strings_are_equal() {
    let tables = tables();
    assert_eq!(collate_no_tiebreak("é", "e\u{301}", DUCET_SHIFTED, &tables), Ordering::Equal);
    assert_eq!(collate_no_tiebreak("\u{301}\u{316}", "\u{316}\u{301}", DUCET_PLAIN, &tables), Ordering::Equal);
}

#[test]
fn level_separators_counted() {
    let tables = tables();
    let zeros = |k: Vec<u16>| k.iter().filter(|x| **x == 0).count();
    assert_eq!(zeros(sort_key("de-Luge", DUCET_SHIFTED, &tables)), 3);
    assert_eq!(zeros(sort_key("de-Luge", DUCET_PLAIN, &tables)), 2);
    assert_eq!(zeros(sort_key("\u{0}a", DUCET_PLAIN, &tables)), 2);
}

#[test]
fn fcd_check() {
    let mut table: HashMap<u32, u16> = HashMap::new();
    table.insert(0x00E9, 230);
    assert!(fcd(&vec![0x61, 0x62], &table));
    assert!(fcd(&vec![0xE9, 0x301], &table));
    assert!(!fcd(&vec![0xE9, 0x316], &table));
    assert!(!fcd(&vec![0xE9, 0x301, 0x316], &table));
    assert!(!fcd(&vec![0x301, 0x316], &table));
    assert!(!fcd(&vec![0xAC00], &table));
    assert!(!fcd(&vec![0x0F81], &table));
    assert!(fcd(&vec![0x316, 0x301], &table));
    assert!(!fcd(&vec![0xD7A3], &table));
    assert!(fcd(&vec![0xD7A4], &table));
}

#[test]
fn nfd_gate() {
    let table: HashMap<u32, u16> = HashMap::new();
    assert_eq!(get_nfd("abc", &table), vec![0x61, 0x62, 0x63]);
    assert_eq!(get_nfd("\u{301}\u{316}", &table), vec![0x316, 0x301]);
    assert_eq!(get_nfd("\u{AC00}", &table), vec![0x1100, 0x1161]);
}

#[test]
fn combining_classes() {
    assert_eq!(fcd_entry(&vec![0x301, 0x316]), 230 * 256 + 220);
    assert_eq!(fcd_entry(&vec![0x304B, 0x3099]), 8);
    assert_eq!(fcd_entry(&vec![0x61]), 0);
}

#[test]
fn packed_contraction_keys() {
    assert_eq!(multi_key(&vec![1, 2]), Some(1 + 2 * 0x20_0000));
    assert_eq!(multi_key(&vec![1, 2, 3]), Some(1 + 2 * 0x20_0000 + 3 * 0x400_0000_0000 + (1 << 63)));
    assert_eq!(multi_key(&vec![1]), None);
    assert_eq!(multi_key(&vec![1, 2, 3, 4]), None);
    assert_eq!(multi_key(&vec![0x20_0000, 2]), None);
}

#[test]
fn tables_need_every_low_record() {
    let mut low: HashMap<u32, Weights> = HashMap::new();
    let mut singles: HashMap<u32, Vec<Weights>> = HashMap::new();
    for c in 0u32..183 {
        if c != 76 && c != 108 && c != 90 {
            low.insert(c, low_weights(c));
        }
        singles.insert(c, vec![low_weights(c)]);
    }
    assert!(KeyTables::new(low.clone(), singles.clone(), HashMap::new()).is_none());
    low.insert(90, low_weights(91));
    assert!(KeyTables::new(low.clone(), singles.clone(), HashMap::new()).is_none());
    low.insert(90, low_weights(90));
    assert!(KeyTables::new(low, singles, HashMap::new()).is_some());
}

#[test]
fn prefix_trim() {
    let tables = key_tables();
    assert_eq!(find_prefix(&vec![0x61, 0x62, 0x63], &vec![0x61, 0x62, 0x64]), 2);
    assert_eq!(find_prefix(&vec![0x61, 0x6C, 0x63], &vec![0x61, 0x6C, 0x64]), 1);
    let mut a = vec![0x61, 0x62, 0x63];
    let mut b = vec![0x61, 0x62, 0x64];
    trim_prefix(&mut a, &mut b, &tables);
    assert_eq!((a, b), (vec![0x63], vec![0x64]));
    let mut a = vec![0x61, 0x2D, 0x63];
    let mut b = vec![0x61, 0x2D, 0x64];
    trim_prefix(&mut a, &mut b, &tables);
    assert_eq!((a, b), (vec![0x61, 0x2D, 0x63], vec![0x61, 0x2D, 0x64]));
}

#[test]
fn sort_key_flattening() {
    let cea = vec![ce(5, 0x20, 2, 0xFFFF), ce(0, 0, 0, 0x209), ce(0, 0x24, 2, 0xFFFF)];
    assert_eq!(get_sort_key(&cea, true), vec![5, 0, 0x20, 0x24, 0, 2, 2, 0, 0xFFFF, 0x209, 0xFFFF]);
    assert_eq!(get_sort_key(&cea, false), vec![5, 0, 0x20, 0x24, 0, 2, 2]);
}

#[test]
fn default_options() {
    let o = CollationOptions::default();
    assert_eq!(o.keys_source, KeysSource::Cldr);
    assert!(o.shifting);
}

#[test]
fn no_trim_after_code_point_without_row() {
    let tables = tables();
    let a = "-\u{4E01}\u{301}";
    let b = "-\u{4E01}";
    let ka = sort_key(a, DUCET_SHIFTED, &tables);
    let kb = sort_key(b, DUCET_SHIFTED, &tables);
    assert_eq!(ka.cmp(&kb), Ordering::Equal);
    assert_eq!(collate_no_tiebreak(a, b, DUCET_SHIFTED, &tables), Ordering::Equal);
    let keys = key_tables();
    let mut x = vec![0x4E01, 0x61];
    let mut y = vec![0x4E01, 0x62];
    trim_prefix(&mut x, &mut y, &keys);
    assert_eq!((x, y), (vec![0x4E01, 0x61], vec![0x4E01, 0x62]));
}
