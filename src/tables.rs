//! The weight tables: single code points, contractions, the low fast path,
//! and the canonical-class table used by the FCD check.
use std::collections::HashMap;
use vstd::prelude::*;
use vstd::std_specs::hash::group_hash_axioms;

use crate::weights::{KeysSource, Weights};

verus! {

broadcast use group_hash_axioms;

/// Contraction keys pack each code point into 21 bits: every code point is below this bound.
pub const KEY_UNIT: u64 = 0x20_0000;

/// A contraction key of two or three code points, each below `KEY_UNIT`.
pub open spec fn key_fits(key: Seq<u32>) -> bool {
    &&& 2 <= key.len() <= 3
    &&& forall|i: int| 0 <= i < key.len() ==> (key[i] as u64) < KEY_UNIT
}

/// The integer that stands for a contraction key: 21 bits per code point,
/// and the top bit set for three code points.
pub open spec fn packed_key(key: Seq<u32>) -> u64 {
    if key.len() == 2 {
        (key[0] + key[1] * KEY_UNIT) as u64
    } else {
        (key[0] + key[1] * KEY_UNIT + key[2] * KEY_UNIT * KEY_UNIT + 0x8000_0000_0000_0000u64) as u64
    }
}

/// The packed form of a contraction key, or `None` where it has not two or
/// three code points each below `KEY_UNIT`.
pub fn multi_key(key: &Vec<u32>) -> (r: Option<u64>)
    ensures
        r == (if key_fits(key@) { Some(packed_key(key@)) } else { None::<u64> }),
{
    if key.len() < 2 || key.len() > 3 {
        return None;
    }
    let a = key[0] as u64;
    let b = key[1] as u64;
    if a >= KEY_UNIT || b >= KEY_UNIT {
        return None;
    }
    if key.len() == 2 {
        return Some(a + b * KEY_UNIT);
    }
    let c = key[2] as u64;
    if c >= KEY_UNIT {
        return None;
    }
    proof {
        assert(c * KEY_UNIT * KEY_UNIT <= (KEY_UNIT - 1) * KEY_UNIT * KEY_UNIT) by (nonlinear_arith)
            requires c < KEY_UNIT;
    }
    Some(a + b * KEY_UNIT + c * KEY_UNIT * KEY_UNIT + 0x8000_0000_0000_0000u64)
}

/// The code points that may begin a contraction of three.
pub open spec fn need_three(c: u32) -> bool {
    c == 3_270 || c == 3_545 || c == 4_018 || c == 4_019
}

/// The code points that may begin a contraction of two.
pub open spec fn need_two(c: u32) -> bool {
    c == 76 || c == 108 || c == 1_048 || c == 1_080 || c == 1_575 || c == 1_608 || c == 1_610
        || c == 2_503 || c == 2_887 || c == 2_962 || c == 3_014 || c == 3_015 || c == 3_142
        || c == 3_263 || c == 3_274 || c == 3_398 || c == 3_399 || c == 3_548 || c == 3_648
        || c == 3_649 || c == 3_650 || c == 3_651 || c == 3_652 || c == 3_661 || c == 3_776
        || c == 3_777 || c == 3_778 || c == 3_779 || c == 3_780 || c == 3_789 || c == 3_953
        || c == 4_133 || c == 6_581 || c == 6_582 || c == 6_583 || c == 6_586 || c == 6_917
        || c == 6_919 || c == 6_921 || c == 6_923 || c == 6_925 || c == 6_929 || c == 6_970
        || c == 6_972 || c == 6_974 || c == 6_975 || c == 6_978 || c == 43_701 || c == 43_702
        || c == 43_705 || c == 43_707 || c == 43_708 || c == 69_937 || c == 69_938 || c == 70_471
        || c == 70_841 || c == 71_096 || c == 71_097 || c == 71_989
}

pub fn is_need_three(c: u32) -> (r: bool)
    ensures
        r == need_three(c),
{
    c == 3_270 || c == 3_545 || c == 4_018 || c == 4_019
}

pub fn is_need_two(c: u32) -> (r: bool)
    ensures
        r == need_two(c),
{
    c == 76 || c == 108 || c == 1_048 || c == 1_080 || c == 1_575 || c == 1_608 || c == 1_610
        || c == 2_503 || c == 2_887 || c == 2_962 || c == 3_014 || c == 3_015 || c == 3_142
        || c == 3_263 || c == 3_274 || c == 3_398 || c == 3_399 || c == 3_548 || c == 3_648
        || c == 3_649 || c == 3_650 || c == 3_651 || c == 3_652 || c == 3_661 || c == 3_776
        || c == 3_777 || c == 3_778 || c == 3_779 || c == 3_780 || c == 3_789 || c == 3_953
        || c == 4_133 || c == 6_581 || c == 6_582 || c == 6_583 || c == 6_586 || c == 6_917
        || c == 6_919 || c == 6_921 || c == 6_923 || c == 6_925 || c == 6_929 || c == 6_970
        || c == 6_972 || c == 6_974 || c == 6_975 || c == 6_978 || c == 43_701 || c == 43_702
        || c == 43_705 || c == 43_707 || c == 43_708 || c == 69_937 || c == 69_938 || c == 70_471
        || c == 70_841 || c == 71_096 || c == 71_097 || c == 71_989
}

/// Code points below this bound, but for `L` and `l`, take the low fast path.
pub open spec fn is_low(c: u32) -> bool {
    c < 183 && c != 76 && c != 108
}

/// Every code point of the low fast path has its record, and that record
/// is the whole row of the code point among the singles.
pub open spec fn low_consistent(low: Map<u32, Weights>, singles: Map<u32, Vec<Weights>>) -> bool {
    forall|c: u32| #[trigger] is_low(c) ==> {
        &&& low.contains_key(c)
        &&& singles.contains_key(c)
        &&& singles[c]@ == seq![low[c]]
    }
}

fn low_entry_ok(low: &HashMap<u32, Weights>, singles: &HashMap<u32, Vec<Weights>>, c: u32) -> (r:
    bool)
    ensures
        r == (low@.contains_key(c) && singles@.contains_key(c) && singles@[c]@ == seq![low@[c]]),
{
    match low.get(&c) {
        Some(w) => match singles.get(&c) {
            Some(row) => {
                if row.len() != 1 || row[0] != *w {
                    assert(row@ != seq![*w]);
                    false
                } else {
                    assert(row@ =~= seq![*w]);
                    true
                }
            },
            None => false,
        },
        None => false,
    }
}

/// The weight tables of one source.
pub struct KeyTables {
    /// One record for each code point of the low fast path.
    pub low: HashMap<u32, Weights>,
    /// Rows of single code points.
    pub singles: HashMap<u32, Vec<Weights>>,
    /// Rows of contractions, keyed by `multi_key`.
    pub multis: HashMap<u64, Vec<Weights>>,
}

impl KeyTables {
    pub open spec fn wf(&self) -> bool {
        low_consistent(self.low@, self.singles@)
    }

    /// The row of a single code point, if the table has one.
    pub open spec fn single(&self, c: u32) -> Option<Seq<Weights>> {
        if self.singles@.contains_key(c) {
            Some(self.singles@[c]@)
        } else {
            None
        }
    }

    /// The row of a contraction, if the table has one.
    pub open spec fn multi(&self, key: Seq<u32>) -> Option<Seq<Weights>> {
        if key_fits(key) && self.multis@.contains_key(packed_key(key)) {
            Some(self.multis@[packed_key(key)]@)
        } else {
            None
        }
    }

    /// Builds the tables, or `None` where a code point of the low fast path
    /// lacks its record or the record is not the whole singles row.
    pub fn new(
        low: HashMap<u32, Weights>,
        singles: HashMap<u32, Vec<Weights>>,
        multis: HashMap<u64, Vec<Weights>>,
    ) -> (r: Option<KeyTables>)
        ensures
            r matches Some(t) ==> t.wf() && t.low@ == low@ && t.singles@ == singles@
                && t.multis@ == multis@,
            r is None ==> !low_consistent(low@, singles@),
    {
        let mut c: u32 = 0;
        while c < 183
            invariant
                c <= 183,
                forall|d: u32| d < c && #[trigger] is_low(d) ==> {
                    &&& low@.contains_key(d)
                    &&& singles@.contains_key(d)
                    &&& singles@[d]@ == seq![low@[d]]
                },
            decreases 183 - c,
        {
            if c != 76 && c != 108 {
                assert(is_low(c));
                if !low_entry_ok(&low, &singles, c) {
                    return None;
                }
            }
            c = c + 1;
        }
        Some(KeyTables { low, singles, multis })
    }

    /// The row of a contraction.
    pub fn get_multi(&self, key: &Vec<u32>) -> (r: Option<&Vec<Weights>>)
        ensures
            match r {
                Some(row) => self.multi(key@) == Some(row@),
                None => self.multi(key@) is None,
            },
    {
        match multi_key(key) {
            Some(k) => self.multis.get(&k),
            None => None,
        }
    }
}

/// The tables of both sources and the FCD table.
pub struct CollationTables {
    pub ducet: KeyTables,
    pub cldr: KeyTables,
    /// For a code point with a canonical decomposition: the combining class of
    /// the first code point of its full decomposition times 256, plus that of the last.
    pub fcd: HashMap<u32, u16>,
}

impl CollationTables {
    pub open spec fn wf(&self) -> bool {
        self.ducet.wf() && self.cldr.wf()
    }

    /// The tables of a source.
    pub open spec fn keys(&self, source: KeysSource) -> KeyTables {
        match source {
            KeysSource::Cldr => self.cldr,
            KeysSource::Ducet => self.ducet,
        }
    }

    pub fn select(&self, source: KeysSource) -> (r: &KeyTables)
        ensures
            *r == self.keys(source),
    {
        match source {
            KeysSource::Cldr => &self.cldr,
            KeysSource::Ducet => &self.ducet,
        }
    }
}

} // verus!
