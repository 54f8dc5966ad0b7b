//! Implicit weights for code points that no table row covers.
use vstd::prelude::*;

use crate::weights::CollationElement;

verus! {

/// Code points inside an assigned implicit range that are weighted as unassigned.
pub open spec fn included_unassigned(c: u32) -> bool {
    c == 177_977 || c == 178_206 || c == 183_970 || c == 191_457
}

/// Ranges of the Han ideographs of the CJK Unified Ideographs block and its compatibility block.
pub open spec fn is_core_han(c: u32) -> bool {
    (19_968 <= c <= 40_959) || (63_744 <= c <= 64_255)
}

/// Ranges of the other Han ideographs (extensions A to G).
pub open spec fn is_other_han(c: u32) -> bool {
    (13_312 <= c <= 19_903) || (131_072 <= c <= 173_791) || (173_824 <= c <= 191_471) || (
    196_608 <= c <= 201_551)
}

pub open spec fn is_tangut(c: u32) -> bool {
    (94_208 <= c <= 101_119) || (101_632 <= c <= 101_775)
}

pub open spec fn is_khitan(c: u32) -> bool {
    101_120 <= c <= 101_631
}

pub open spec fn is_nushu(c: u32) -> bool {
    110_960 <= c <= 111_359
}

/// The primary weight of the first implicit element (AAAA).
pub open spec fn implicit_primary_a(c: u32) -> int {
    if included_unassigned(c) {
        64_448 + c / 32_768
    } else if is_other_han(c) {
        64_384 + c / 32_768
    } else if is_core_han(c) {
        64_320 + c / 32_768
    } else if is_tangut(c) {
        64_256
    } else if is_khitan(c) {
        64_258
    } else if is_nushu(c) {
        64_257
    } else {
        64_448 + c / 32_768
    }
}

/// The primary weight of the second implicit element (BBBB), its top bit set.
pub open spec fn implicit_primary_b(c: u32) -> int {
    let low: int = if included_unassigned(c) {
        c as int % 32_768
    } else if is_other_han(c) || is_core_han(c) {
        c as int % 32_768
    } else if is_tangut(c) {
        c - 94_208
    } else if is_khitan(c) {
        c - 101_120
    } else if is_nushu(c) {
        c - 110_960
    } else {
        c as int % 32_768
    };
    low + 32_768
}

/// The two implicit elements of `c`.
pub open spec fn implicit_ces(c: u32, shifting: bool) -> Seq<CollationElement> {
    let q: u16 = if shifting { 0xFFFF } else { 0 };
    seq![
        CollationElement { primary: implicit_primary_a(c) as u16, secondary: 32, tertiary: 2, quaternary: q },
        CollationElement { primary: implicit_primary_b(c) as u16, secondary: 0, tertiary: 0, quaternary: q },
    ]
}

fn is_included_unassigned(c: u32) -> (r: bool)
    ensures
        r == included_unassigned(c),
{
    c == 177_977 || c == 178_206 || c == 183_970 || c == 191_457
}

/// The first implicit element of `c`.
pub fn get_implicit_a(c: u32, shifting: bool) -> (r: CollationElement)
    requires
        c <= 0x10FFFF,
    ensures
        r == implicit_ces(c, shifting)[0],
        r.primary as int == implicit_primary_a(c),
{
    let mut aaaa: u32 = if 13_312 <= c && c <= 19_903 {
        64_384 + c / 32_768
    } else if 19_968 <= c && c <= 40_959 {
        64_320 + c / 32_768
    } else if 63_744 <= c && c <= 64_255 {
        64_320 + c / 32_768
    } else if 94_208 <= c && c <= 101_119 {
        64_256
    } else if 101_120 <= c && c <= 101_631 {
        64_258
    } else if 101_632 <= c && c <= 101_775 {
        64_256
    } else if 110_960 <= c && c <= 111_359 {
        64_257
    } else if 131_072 <= c && c <= 173_791 {
        64_384 + c / 32_768
    } else if 173_824 <= c && c <= 191_471 {
        64_384 + c / 32_768
    } else if 196_608 <= c && c <= 201_551 {
        64_384 + c / 32_768
    } else {
        64_448 + c / 32_768
    };
    if is_included_unassigned(c) {
        aaaa = 64_448 + c / 32_768;
    }
    let q: u16 = if shifting { 0xFFFF } else { 0 };
    CollationElement { primary: aaaa as u16, secondary: 32, tertiary: 2, quaternary: q }
}

/// The second implicit element of `c`.
pub fn get_implicit_b(c: u32, shifting: bool) -> (r: CollationElement)
    requires
        c <= 0x10FFFF,
    ensures
        r == implicit_ces(c, shifting)[1],
        r.primary as int == implicit_primary_b(c),
{
    let mut bbbb: u32 = if 94_208 <= c && c <= 101_119 {
        c - 94_208
    } else if 101_120 <= c && c <= 101_631 {
        c - 101_120
    } else if 101_632 <= c && c <= 101_775 {
        c - 94_208
    } else if 110_960 <= c && c <= 111_359 {
        c - 110_960
    } else {
        c % 32_768
    };
    if is_included_unassigned(c) {
        bbbb = c % 32_768;
    }
    bbbb = bbbb + 32_768;
    let q: u16 = if shifting { 0xFFFF } else { 0 };
    CollationElement { primary: bbbb as u16, secondary: 0, tertiary: 0, quaternary: q }
}

/// Appends the two implicit elements of `c`.
pub fn push_implicit(cea: &mut Vec<CollationElement>, c: u32, shifting: bool)
    requires
        c <= 0x10FFFF,
    ensures
        final(cea)@ == old(cea)@ + implicit_ces(c, shifting),
{
    let a = get_implicit_a(c, shifting);
    let b = get_implicit_b(c, shifting);
    cea.push(a);
    cea.push(b);
    assert(final(cea)@ =~= old(cea)@ + implicit_ces(c, shifting));
}

} // verus!
