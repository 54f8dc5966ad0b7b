//! Code points of a string, canonical combining classes, the FCD check and
//! the normalizer gate.
use std::collections::HashMap;
use unicode_canonical_combining_class::get_canonical_combining_class_u32;
use unicode_normalization::UnicodeNormalization;
use vstd::prelude::*;
use vstd::std_specs::hash::group_hash_axioms;

verus! {

broadcast use group_hash_axioms;

/// The canonical combining class of a code point, as the Unicode Character
/// Database gives it (zero for a value that is no character).
pub uninterp spec fn ccc_of(cp: u32) -> u8;

/// The code points of the canonical decomposition (NFD) of a sequence of characters,
/// given by their code points.
pub uninterp spec fn nfd_of(s: Seq<u32>) -> Seq<u32>;

/// Relies on `unicode_canonical_combining_class::get_canonical_combining_class_u32`:
/// a table lookup on the value alone, whose enum discriminant is the class.
#[verifier::external_body]
pub(crate) fn canonical_combining_class(cp: u32) -> (r: u8)
    ensures
        r == ccc_of(cp),
{
    get_canonical_combining_class_u32(cp) as u8
}

/// Relies on `unicode_normalization::UnicodeNormalization::nfd` for `&str`:
/// the characters of the canonical decomposition, in order, which depend on
/// the characters of `s` alone; being characters, their values are code points.
#[verifier::external_body]
fn decomposed_code_points(s: &str) -> (r: Vec<u32>)
    ensures
        r@ == nfd_of(code_points(s@)),
        all_code_points(r@),
{
    s.nfd().map(|c| c as u32).collect()
}

/// The scalar values of a character sequence.
pub open spec fn code_points(s: Seq<char>) -> Seq<u32> {
    s.map_values(|c: char| c as u32)
}

/// Every value is a Unicode code point.
pub open spec fn all_code_points(s: Seq<u32>) -> bool {
    forall|i: int| 0 <= i < s.len() ==> s[i] <= 0x10FFFF
}

pub proof fn lemma_code_points_in_range(s: Seq<char>)
    ensures
        all_code_points(code_points(s)),
        code_points(s).len() == s.len(),
{
    assert forall|i: int| 0 <= i < code_points(s).len() implies code_points(s)[i] <= 0x10FFFF by {
        vstd::utf8::char_is_scalar(s[i]);
    }
}

/// The code points of a string.
pub fn str_code_points(s: &str) -> (r: Vec<u32>)
    ensures
        r@ == code_points(s@),
{
    let mut r: Vec<u32> = Vec::new();
    for c in it: s.chars()
        invariant
            it.seq() == s@,
            r@ == code_points(s@.take(it.index() as int)),
    {
        proof {
            assert(s@.take(it.index() + 1) =~= s@.take(it.index() as int).push(c));
        }
        r.push(c as u32);
        proof {
            assert(r@ =~= code_points(s@.take(it.index() + 1)));
        }
    }
    proof {
        assert(s@.take(s@.len() as int) =~= s@);
    }
    r
}

/// The canonical classes of the first and last code point of the full
/// canonical decomposition of `c`.
pub open spec fn lead_trail(fcd: Map<u32, u16>, c: u32) -> (u8, u8) {
    if fcd.contains_key(c) {
        ((fcd[c] / 256) as u8, (fcd[c] % 256) as u8)
    } else {
        (ccc_of(c), ccc_of(c))
    }
}

/// The FCD scan over `s`: the trailing class of its last code point, or
/// `None` once the sequence is found not to be FCD.
pub open spec fn fcd_scan(fcd: Map<u32, u16>, s: Seq<u32>) -> Option<u8>
    decreases s.len(),
{
    if s.len() == 0 {
        Some(0u8)
    } else {
        match fcd_scan(fcd, s.drop_last()) {
            None => None,
            Some(prev) => {
                let c = s.last();
                if c < 192 {
                    Some(0u8)
                } else if c == 3_969 || (44_032 <= c <= 55_203) {
                    None
                } else {
                    let (lead, trail) = lead_trail(fcd, c);
                    if lead != 0 && lead < prev {
                        None
                    } else {
                        Some(trail)
                    }
                }
            },
        }
    }
}

/// `s` is canonically ordered as it stands: its NFD needs no reordering.
pub open spec fn is_fcd(fcd: Map<u32, u16>, s: Seq<u32>) -> bool {
    fcd_scan(fcd, s) is Some
}

/// The FCD check over code points.
pub fn fcd(input: &Vec<u32>, table: &HashMap<u32, u16>) -> (r: bool)
    ensures
        r == is_fcd(table@, input@),
{
    let mut prev_trail_cc: u8 = 0;
    let mut i: usize = 0;
    while i < input.len()
        invariant
            i <= input.len(),
            fcd_scan(table@, input@.take(i as int)) == Some(prev_trail_cc),
        decreases input.len() - i,
    {
        let c = input[i];
        proof {
            assert(input@.take(i + 1).drop_last() =~= input@.take(i as int));
        }
        if c < 192 {
            prev_trail_cc = 0;
        } else {
            if c == 3_969 || (44_032 <= c && c <= 55_203) {
                proof {
                    lemma_scan_stays_none(table@, input@, i as int + 1);
                }
                return false;
            }
            let lead: u8;
            let trail: u8;
            match table.get(&c) {
                Some(v) => {
                    lead = (*v / 256) as u8;
                    trail = (*v % 256) as u8;
                },
                None => {
                    lead = canonical_combining_class(c);
                    trail = lead;
                },
            }
            if lead != 0 && lead < prev_trail_cc {
                proof {
                    lemma_scan_stays_none(table@, input@, i as int + 1);
                }
                return false;
            }
            prev_trail_cc = trail;
        }
        i = i + 1;
    }
    proof {
        assert(input@.take(input.len() as int) =~= input@);
    }
    true
}

proof fn lemma_scan_stays_none(fcd: Map<u32, u16>, s: Seq<u32>, k: int)
    requires
        0 <= k <= s.len(),
        fcd_scan(fcd, s.take(k)) is None,
    ensures
        fcd_scan(fcd, s) is None,
    decreases s.len() - k,
{
    if k < s.len() {
        assert(s.take(k + 1).drop_last() =~= s.take(k));
        lemma_scan_stays_none(fcd, s, k + 1);
    } else {
        assert(s.take(k) =~= s);
    }
}

/// The code points that collation works on: those of `s` where `s` passes
/// the FCD check, else those of its canonical decomposition.
pub open spec fn nfd_code_points(fcd: Map<u32, u16>, s: Seq<char>) -> Seq<u32> {
    let cps = code_points(s);
    if is_fcd(fcd, cps) {
        cps
    } else {
        nfd_of(cps)
    }
}

/// The NFD code points of `input`, without decomposing where the FCD check passes.
pub fn get_nfd(input: &str, table: &HashMap<u32, u16>) -> (r: Vec<u32>)
    ensures
        r@ == nfd_code_points(table@, input@),
        all_code_points(r@),
{
    let cps = str_code_points(input);
    if fcd(&cps, table) {
        proof {
            lemma_code_points_in_range(input@);
        }
        cps
    } else {
        decomposed_code_points(input)
    }
}

/// The FCD table entry of a code point with full canonical decomposition
/// `decomp`: the class of its first code point times 256, plus that of its last.
pub fn fcd_entry(decomp: &Vec<u32>) -> (r: u16)
    requires
        decomp.len() > 0,
    ensures
        r as int == ccc_of(decomp@[0]) as int * 256 + ccc_of(decomp@.last()) as int,
        (r / 256) as u8 == ccc_of(decomp@[0]),
        (r % 256) as u8 == ccc_of(decomp@.last()),
{
    let first = canonical_combining_class(decomp[0]);
    let last = canonical_combining_class(decomp[decomp.len() - 1]);
    first as u16 * 256 + last as u16
}

} // verus!
