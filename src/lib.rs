//! Unicode Collation Algorithm: comparison of strings and binary sort keys
//! over the DUCET and CLDR root weight tables.
pub mod boundary;
pub mod cea;
pub mod collate;
pub mod decompose;
pub mod equivalence;
pub mod implicit;
pub mod sort_key;
pub mod tables;
pub mod text;
pub mod unicode;
pub mod weights;

pub use cea::get_cea;
pub use collate::{collate, collate_no_tiebreak, nfd_to_sk, sort_key};
pub use implicit::{get_implicit_a, get_implicit_b};
pub use sort_key::{find_prefix, get_sort_key, trim_prefix};
pub use decompose::{
    decompose, decompose_jamo, get_canonical_decomp, is_excluded_from_tables, reorder,
};
pub use tables::{multi_key, CollationTables, KeyTables};
pub use text::{parse_canonical_field, parse_hex_fields, parse_table_line, parse_test_line};
pub use unicode::{fcd, fcd_entry, get_nfd};
pub use weights::{get_weights_shifting, CollationElement, CollationOptions, KeysSource, Weights};
