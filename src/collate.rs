//! Comparing strings, with and without the tiebreak, and sort keys of strings.
use std::cmp::Ordering;
use vstd::prelude::*;

use crate::cea::{cea_of, get_cea, residue_of};
use crate::sort_key::{
    compare_code_points, compare_keys, get_sort_key, ints16, ints32, lex_cmp, same_code_points,
    lemma_lex_cmp_antisymmetric, lemma_level_separators, lemma_trimmed_code_points,
    lemma_trimmed_symmetric, reverse, sort_key_of, zero_count, trim_prefix, trimmed,
};
use crate::tables::CollationTables;
use crate::unicode::{all_code_points, code_points, get_nfd, nfd_code_points, str_code_points};
use crate::weights::{levels, CollationOptions, KeysSource};

verus! {

/// The sort key of a code point sequence.
pub open spec fn key_of(tables: CollationTables, opt: CollationOptions, cv: Seq<u32>) -> Seq<u16> {
    sort_key_of(cea_of(tables, opt, cv), opt.shifting)
}

/// The sort key of a string.
pub open spec fn string_key(tables: CollationTables, opt: CollationOptions, s: Seq<char>) -> Seq<u16> {
    key_of(tables, opt, nfd_code_points(tables.fcd@, s))
}

/// The order of the sort keys after the shared prefix is trimmed.
pub open spec fn key_order(tables: CollationTables, opt: CollationOptions, na: Seq<u32>, nb: Seq<u32>) -> Ordering {
    let (ta, tb) = trimmed(tables.keys(opt.keys_source), na, nb);
    lex_cmp(ints16(key_of(tables, opt, ta)), ints16(key_of(tables, opt, tb)))
}

/// The order of two strings. Strings with the same code points are equal;
/// otherwise those whose NFD agree, or whose keys agree, are ordered by code
/// point where `tiebreak` holds and are equal where it does not.
pub open spec fn collation(
    tables: CollationTables,
    opt: CollationOptions,
    a: Seq<char>,
    b: Seq<char>,
    tiebreak: bool,
) -> Ordering {
    let ca = code_points(a);
    let cb = code_points(b);
    let na = nfd_code_points(tables.fcd@, a);
    let nb = nfd_code_points(tables.fcd@, b);
    let by_code_point = if tiebreak { lex_cmp(ints32(ca), ints32(cb)) } else { Ordering::Equal };
    if ca == cb {
        Ordering::Equal
    } else if na == nb {
        by_code_point
    } else if key_order(tables, opt, na, nb) == Ordering::Equal {
        by_code_point
    } else {
        key_order(tables, opt, na, nb)
    }
}

/// The sort key of an NFD code point sequence; the sequence loses the code
/// points that discontiguous matches took.
pub fn nfd_to_sk(nfd: &mut Vec<u32>, opt: CollationOptions, tables: &CollationTables) -> (r: Vec<u16>)
    requires
        tables.wf(),
        all_code_points(old(nfd)@),
    ensures
        r@ == key_of(*tables, opt, old(nfd)@),
        final(nfd)@ == residue_of(*tables, opt, old(nfd)@),
{
    let collation_element_array = get_cea(nfd, opt, tables);
    get_sort_key(&collation_element_array, opt.shifting)
}

/// The sort key of `s`: compare keys lexicographically to collate.
pub fn sort_key(s: &str, opt: CollationOptions, tables: &CollationTables) -> (r: Vec<u16>)
    requires
        tables.wf(),
    ensures
        r@ == string_key(*tables, opt, s@),
{
    let mut nfd = get_nfd(s, &tables.fcd);
    nfd_to_sk(&mut nfd, opt, tables)
}

fn compare(str_a: &str, str_b: &str, opt: CollationOptions, tables: &CollationTables, tiebreak: bool) -> (r:
    Ordering)
    requires
        tables.wf(),
    ensures
        r == collation(*tables, opt, str_a@, str_b@, tiebreak),
{
    let ca = str_code_points(str_a);
    let cb = str_code_points(str_b);
    if same_code_points(&ca, &cb) {
        return Ordering::Equal;
    }
    let mut a_nfd = get_nfd(str_a, &tables.fcd);
    let mut b_nfd = get_nfd(str_b, &tables.fcd);
    if same_code_points(&a_nfd, &b_nfd) {
        if tiebreak {
            return compare_code_points(&ca, &cb);
        }
        return Ordering::Equal;
    }
    let ghost na = a_nfd@;
    let ghost nb = b_nfd@;
    trim_prefix(&mut a_nfd, &mut b_nfd, tables.select(opt.keys_source));
    proof {
        lemma_trimmed_code_points(tables.keys(opt.keys_source), na, nb);
    }
    let a_sk = nfd_to_sk(&mut a_nfd, opt, tables);
    let b_sk = nfd_to_sk(&mut b_nfd, opt, tables);
    let comparison = compare_keys(&a_sk, &b_sk);
    if tiebreak {
        if let Ordering::Equal = comparison {
            return compare_code_points(&ca, &cb);
        }
    }
    comparison
}

/// Collates two strings: their order under the Unicode Collation Algorithm,
/// with ties broken by code point order.
pub fn collate(str_a: &str, str_b: &str, opt: CollationOptions, tables: &CollationTables) -> (r: Ordering)
    requires
        tables.wf(),
    ensures
        r == collation(*tables, opt, str_a@, str_b@, true),
{
    compare(str_a, str_b, opt, tables, true)
}

/// Collates two strings without the tiebreak: canonically equivalent strings,
/// and strings with equal sort keys, are `Equal`.
pub fn collate_no_tiebreak(str_a: &str, str_b: &str, opt: CollationOptions, tables: &CollationTables) -> (r:
    Ordering)
    requires
        tables.wf(),
    ensures
        r == collation(*tables, opt, str_a@, str_b@, false),
{
    compare(str_a, str_b, opt, tables, false)
}

/// Collating always gives one of the three orders.
pub proof fn lemma_collate_total(
    tables: CollationTables,
    opt: CollationOptions,
    a: Seq<char>,
    b: Seq<char>,
    tiebreak: bool,
)
    ensures
        collation(tables, opt, a, b, tiebreak) matches (Ordering::Less | Ordering::Equal | Ordering::Greater),
{
}

/// Swapping the arguments reverses the order.
pub proof fn lemma_collate_antisymmetric(
    tables: CollationTables,
    opt: CollationOptions,
    a: Seq<char>,
    b: Seq<char>,
    tiebreak: bool,
)
    ensures
        collation(tables, opt, a, b, tiebreak) == reverse(collation(tables, opt, b, a, tiebreak)),
{
    let t = tables.keys(opt.keys_source);
    let na = nfd_code_points(tables.fcd@, a);
    let nb = nfd_code_points(tables.fcd@, b);
    lemma_trimmed_symmetric(t, na, nb);
    let (ta, tb) = trimmed(t, na, nb);
    lemma_lex_cmp_antisymmetric(ints16(key_of(tables, opt, ta)), ints16(key_of(tables, opt, tb)));
    lemma_lex_cmp_antisymmetric(ints32(code_points(a)), ints32(code_points(b)));
}

/// A string collates `Equal` with itself.
pub proof fn lemma_collate_reflexive(tables: CollationTables, opt: CollationOptions, a: Seq<char>, tiebreak: bool)
    ensures
        collation(tables, opt, a, a, tiebreak) == Ordering::Equal,
{
}

/// The sort key of every string holds exactly one zero at each boundary
/// between levels and no other.
pub proof fn lemma_string_key_separators(tables: CollationTables, opt: CollationOptions, s: Seq<char>)
    ensures
        zero_count(string_key(tables, opt, s)) == levels(opt.shifting) - 1,
{
    lemma_level_separators(cea_of(tables, opt, nfd_code_points(tables.fcd@, s)), opt.shifting);
}

/// Strings whose code points agree after the normalizer gate collate
/// `Equal` without tiebreak.
pub proof fn lemma_same_nfd_equal(tables: CollationTables, opt: CollationOptions, a: Seq<char>, b: Seq<char>)
    requires
        nfd_code_points(tables.fcd@, a) == nfd_code_points(tables.fcd@, b),
    ensures
        collation(tables, opt, a, b, false) == Ordering::Equal,
{
}

} // verus!
