//! The collation element generator: walks code points, matching table rows
//! (longest contiguous match first, then discontiguous extensions across
//! non-starters) and falling back to implicit weights.
use vstd::prelude::*;
use vstd::std_specs::hash::group_hash_axioms;

use crate::implicit::{implicit_ces, push_implicit};
use crate::tables::{is_low, is_need_three, is_need_two, need_three, need_two, CollationTables, KeyTables};
use crate::unicode::{all_code_points, canonical_combining_class, ccc_of};
use crate::weights::{push_row, row_ces, row_state, CollationElement, CollationOptions, KeysSource, Weights};

verus! {

broadcast use group_hash_axioms;

/// Where the elements of one step come from.
pub enum Source {
    /// A table row of weight records.
    Row(Seq<Weights>),
    /// The implicit weights of a code point.
    Implicit(u32),
}

/// The outcome of one step: what to emit, the buffer after any code points
/// consumed out of order were removed, and the new cursor.
pub struct Step {
    pub source: Source,
    pub cv: Seq<u32>,
    pub left: int,
}

/// How many code points a contraction starting with `c` may have.
pub open spec fn lookahead(c: u32) -> int {
    if need_three(c) {
        3
    } else if need_two(c) {
        2
    } else {
        1
    }
}

/// `cv[lo..=hi]` are non-starters whose combining classes strictly increase.
pub open spec fn window_ok(cv: Seq<u32>, lo: int, hi: int) -> bool {
    &&& ccc_of(cv[lo]) != 0
    &&& forall|i: int| lo <= i < hi ==> #[trigger] ccc_of(cv[i]) < ccc_of(cv[i + 1])
}

/// The key tried for a discontiguous match: the matched code points
/// `cv[left..right]` and then `cv[mr]`, or `cv[mr - 1]` and `cv[mr]`.
pub open spec fn candidate(cv: Seq<u32>, left: int, right: int, mr: int, two: bool) -> Seq<u32> {
    if two {
        cv.subrange(left, right) + seq![cv[mr - 1], cv[mr]]
    } else {
        cv.subrange(left, right).push(cv[mr])
    }
}

/// The discontiguous search from `mr` inward: the row found, with the
/// position of its last code point and whether two were taken.
pub open spec fn discont_from(
    t: KeyTables,
    cv: Seq<u32>,
    left: int,
    right: int,
    mr: int,
    two: bool,
) -> Option<(Seq<Weights>, int, bool)>
    decreases mr - right, (if two { 1int } else { 0int }),
{
    if mr <= right {
        None
    } else if !window_ok(cv, right, mr) {
        discont_from(t, cv, left, right, mr - 1, false)
    } else {
        match t.multi(candidate(cv, left, right, mr, two)) {
            Some(row) => Some((row, mr, two)),
            None => if two {
                discont_from(t, cv, left, right, mr, false)
            } else {
                discont_from(t, cv, left, right, mr - 1, false)
            },
        }
    }
}

/// The first position tried past a match ending at `right`.
pub open spec fn first_reach(len: int, right: int) -> int {
    if right + 2 < len {
        right + 2
    } else if right + 1 < len {
        right + 1
    } else {
        right
    }
}

/// A discontiguous extension of the match `cv[left..right]`, if the table has one.
/// Taking two code points is tried with the CLDR table only.
pub open spec fn discontiguous(t: KeyTables, cldr: bool, cv: Seq<u32>, left: int, right: int) -> Option<
    (Seq<Weights>, int, bool),
> {
    let mr = first_reach(cv.len() as int, right);
    discont_from(t, cv, left, right, mr, mr - right == 2 && cldr)
}

/// `cv` without the code points that a discontiguous match took.
pub open spec fn remove_taken(cv: Seq<u32>, mr: int, two: bool) -> Seq<u32> {
    if two {
        cv.remove(mr).remove(mr - 1)
    } else {
        cv.remove(mr)
    }
}

/// The step after `cv[left..right]` matched `row`.
pub open spec fn matched(t: KeyTables, cldr: bool, cv: Seq<u32>, left: int, right: int, row: Seq<Weights>) -> Step {
    match discontiguous(t, cldr, cv, left, right) {
        Some((found, mr, two)) => Step { source: Source::Row(found), cv: remove_taken(cv, mr, two), left: right },
        None => Step { source: Source::Row(row), cv, left: right },
    }
}

/// The longest contiguous match of at most `right - left` code points.
pub open spec fn search(t: KeyTables, cldr: bool, cv: Seq<u32>, left: int, right: int) -> Step
    decreases right - left,
{
    if right <= left + 1 {
        match t.single(cv[left]) {
            Some(row) => matched(t, cldr, cv, left, left + 1, row),
            None => Step { source: Source::Implicit(cv[left]), cv, left: left + 1 },
        }
    } else {
        match t.multi(cv.subrange(left, right)) {
            Some(row) => matched(t, cldr, cv, left, right, row),
            None => search(t, cldr, cv, left, right - 1),
        }
    }
}

/// One step of the generator at `left`.
pub open spec fn step(t: KeyTables, cldr: bool, cv: Seq<u32>, left: int) -> Step {
    let c = cv[left];
    if is_low(c) {
        Step { source: Source::Row(seq![t.low@[c]]), cv, left: left + 1 }
    } else if !(lookahead(c) > 1 && cv.len() - left > 1) {
        match t.single(c) {
            Some(row) => Step { source: Source::Row(row), cv, left: left + 1 },
            None => Step { source: Source::Implicit(c), cv, left: left + 1 },
        }
    } else {
        let right = if left + lookahead(c) > cv.len() { cv.len() as int } else { left + lookahead(c) };
        search(t, cldr, cv, left, right)
    }
}

pub open spec fn source_ces(src: Source, shifting: bool, lv: bool) -> Seq<CollationElement> {
    match src {
        Source::Row(row) => row_ces(row, shifting, lv),
        Source::Implicit(c) => implicit_ces(c, shifting),
    }
}

pub open spec fn source_state(src: Source, shifting: bool, lv: bool) -> bool {
    match src {
        Source::Row(row) => row_state(row, shifting, lv),
        Source::Implicit(_) => lv,
    }
}

pub proof fn lemma_discont_from_bounds(t: KeyTables, cv: Seq<u32>, left: int, right: int, mr: int, two: bool)
    requires
        right <= mr,
        mr == right || mr < cv.len(),
        two ==> mr == right + 2,
    ensures
        discont_from(t, cv, left, right, mr, two) matches Some((row, m, tw)) ==> right < m < cv.len()
            && (tw ==> m == right + 2),
    decreases mr - right, (if two { 1int } else { 0int }),
{
    if mr <= right {
    } else if !window_ok(cv, right, mr) {
        lemma_discont_from_bounds(t, cv, left, right, mr - 1, false);
    } else {
        match t.multi(candidate(cv, left, right, mr, two)) {
            Some(row) => {},
            None => if two {
                lemma_discont_from_bounds(t, cv, left, right, mr, false);
            } else {
                lemma_discont_from_bounds(t, cv, left, right, mr - 1, false);
            },
        }
    }
}

proof fn lemma_matched_progress(t: KeyTables, cldr: bool, cv: Seq<u32>, left: int, right: int, row: Seq<Weights>)
    requires
        0 <= left < right <= cv.len(),
    ensures
        matched(t, cldr, cv, left, right, row).left == right,
        right <= matched(t, cldr, cv, left, right, row).cv.len() <= cv.len(),
{
    let mr = first_reach(cv.len() as int, right);
    lemma_discont_from_bounds(t, cv, left, right, mr, mr - right == 2 && cldr);
}

proof fn lemma_search_progress(t: KeyTables, cldr: bool, cv: Seq<u32>, left: int, right: int)
    requires
        0 <= left < right <= cv.len(),
    ensures
        left < search(t, cldr, cv, left, right).left <= search(t, cldr, cv, left, right).cv.len(),
        search(t, cldr, cv, left, right).cv.len() - search(t, cldr, cv, left, right).left < cv.len()
            - left,
    decreases right - left,
{
    if right <= left + 1 {
        match t.single(cv[left]) {
            Some(row) => lemma_matched_progress(t, cldr, cv, left, left + 1, row),
            None => {},
        }
    } else {
        match t.multi(cv.subrange(left, right)) {
            Some(row) => lemma_matched_progress(t, cldr, cv, left, right, row),
            None => lemma_search_progress(t, cldr, cv, left, right - 1),
        }
    }
}

/// Each step moves the cursor forward and shortens what is left to walk.
pub proof fn lemma_step_progress(t: KeyTables, cldr: bool, cv: Seq<u32>, left: int)
    requires
        0 <= left < cv.len(),
    ensures
        left < step(t, cldr, cv, left).left <= step(t, cldr, cv, left).cv.len(),
        step(t, cldr, cv, left).cv.len() - step(t, cldr, cv, left).left < cv.len() - left,
{
    let c = cv[left];
    if !is_low(c) && lookahead(c) > 1 && cv.len() - left > 1 {
        let right = if left + lookahead(c) > cv.len() { cv.len() as int } else { left + lookahead(c) };
        lemma_search_progress(t, cldr, cv, left, right);
    }
}

/// The elements generated from `cv[left..]` in variable state `lv`.
pub open spec fn cea_from(t: KeyTables, cldr: bool, shifting: bool, cv: Seq<u32>, left: int, lv: bool) -> Seq<
    CollationElement,
>
    decreases cv.len() - left,
{
    if left < 0 || left >= cv.len() {
        seq![]
    } else {
        let s = step(t, cldr, cv, left);
        proof {
            lemma_step_progress(t, cldr, cv, left);
        }
        source_ces(s.source, shifting, lv) + cea_from(
            t,
            cldr,
            shifting,
            s.cv,
            s.left,
            source_state(s.source, shifting, lv),
        )
    }
}

/// The variable state once the generator has walked `cv[left..]` from state `lv`.
pub open spec fn state_from(t: KeyTables, cldr: bool, shifting: bool, cv: Seq<u32>, left: int, lv: bool) -> bool
    decreases cv.len() - left,
{
    if left < 0 || left >= cv.len() {
        lv
    } else {
        let s = step(t, cldr, cv, left);
        proof {
            lemma_step_progress(t, cldr, cv, left);
        }
        state_from(t, cldr, shifting, s.cv, s.left, source_state(s.source, shifting, lv))
    }
}

/// The buffer once the generator has walked `cv[left..]`: `cv` without the
/// code points taken by discontiguous matches.
pub open spec fn residue_from(t: KeyTables, cldr: bool, cv: Seq<u32>, left: int) -> Seq<u32>
    decreases cv.len() - left,
{
    if left < 0 || left >= cv.len() {
        cv
    } else {
        let s = step(t, cldr, cv, left);
        proof {
            lemma_step_progress(t, cldr, cv, left);
        }
        residue_from(t, cldr, s.cv, s.left)
    }
}

/// The collation elements of a code point sequence under `opt`.
pub open spec fn cea_of(tables: CollationTables, opt: CollationOptions, cv: Seq<u32>) -> Seq<CollationElement> {
    cea_from(tables.keys(opt.keys_source), opt.keys_source == KeysSource::Cldr, opt.shifting, cv, 0, false)
}

/// The buffer that `get_cea` leaves behind.
pub open spec fn residue_of(tables: CollationTables, opt: CollationOptions, cv: Seq<u32>) -> Seq<u32> {
    residue_from(tables.keys(opt.keys_source), opt.keys_source == KeysSource::Cldr, cv, 0)
}

fn window_is_ok(cv: &Vec<u32>, lo: usize, hi: usize) -> (r: bool)
    requires
        lo <= hi < cv.len(),
    ensures
        r == window_ok(cv@, lo as int, hi as int),
{
    let mut max_ccc: u8 = 0;
    let mut j: usize = lo;
    while j <= hi
        invariant
            lo <= j <= hi + 1,
            hi < cv.len(),
            j == lo ==> max_ccc == 0,
            j > lo ==> max_ccc == ccc_of(cv@[j - 1]) && ccc_of(cv@[lo as int]) != 0,
            forall|i: int| lo <= i < j - 1 ==> #[trigger] ccc_of(cv@[i]) < ccc_of(cv@[i + 1]),
        decreases hi + 1 - j,
    {
        let ccc = canonical_combining_class(cv[j]);
        if ccc == 0 || ccc <= max_ccc {
            proof {
                if j > lo {
                    assert(!(ccc_of(cv@[j - 1]) < ccc_of(cv@[j as int])));
                }
            }
            return false;
        }
        max_ccc = ccc;
        j = j + 1;
    }
    true
}

fn slice_key(cv: &Vec<u32>, lo: usize, hi: usize) -> (r: Vec<u32>)
    requires
        lo <= hi <= cv.len(),
    ensures
        r@ == cv@.subrange(lo as int, hi as int),
{
    let mut r: Vec<u32> = Vec::new();
    let mut i: usize = lo;
    while i < hi
        invariant
            lo <= i <= hi <= cv.len(),
            r@ == cv@.subrange(lo as int, i as int),
        decreases hi - i,
    {
        r.push(cv[i]);
        i = i + 1;
        assert(r@ =~= cv@.subrange(lo as int, i as int));
    }
    r
}

/// Searches for a discontiguous extension of the match `cv[left..right]`.
fn find_discontiguous<'a>(t: &'a KeyTables, cldr: bool, cv: &Vec<u32>, left: usize, right: usize) -> (r:
    Option<(&'a Vec<Weights>, usize, bool)>)
    requires
        left < right <= cv.len(),
    ensures
        match r {
            Some((row, mr, two)) => discontiguous(*t, cldr, cv@, left as int, right as int) == Some(
                (row@, mr as int, two),
            ),
            None => discontiguous(*t, cldr, cv@, left as int, right as int) is None,
        },
{
    let mut mr: usize = if cv.len() - right > 2 {
        right + 2
    } else if cv.len() - right > 1 {
        right + 1
    } else {
        right
    };
    let mut two = mr - right == 2 && cldr;
    while mr > right
        invariant
            left < right <= mr,
            mr == right || mr < cv.len(),
            two ==> mr == right + 2,
            discontiguous(*t, cldr, cv@, left as int, right as int) == discont_from(
                *t,
                cv@,
                left as int,
                right as int,
                mr as int,
                two,
            ),
        decreases mr - right, (if two { 1int } else { 0int }),
    {
        if !window_is_ok(cv, right, mr) {
            two = false;
            mr = mr - 1;
            continue;
        }
        let mut key = slice_key(cv, left, right);
        if two {
            key.push(cv[mr - 1]);
        }
        key.push(cv[mr]);
        proof {
            assert(key@ =~= candidate(cv@, left as int, right as int, mr as int, two));
        }
        match t.get_multi(&key) {
            Some(row) => {
                return Some((row, mr, two));
            },
            None => {
                if two {
                    two = false;
                } else {
                    mr = mr - 1;
                }
            },
        }
    }
    None
}

proof fn lemma_remove_keeps_code_points(cv: Seq<u32>, i: int)
    requires
        all_code_points(cv),
        0 <= i < cv.len(),
    ensures
        all_code_points(cv.remove(i)),
{
    assert forall|j: int| 0 <= j < cv.remove(i).len() implies cv.remove(i)[j] <= 0x10FFFF by {
        if j < i {
            assert(cv.remove(i)[j] == cv[j]);
        } else {
            assert(cv.remove(i)[j] == cv[j + 1]);
        }
    }
}

/// Emits the row of the match `cv[left..right]`, or of its discontiguous
/// extension, removing the code points that the extension took.
fn emit_match(
    t: &KeyTables,
    cldr: bool,
    shifting: bool,
    cv: &mut Vec<u32>,
    left: usize,
    right: usize,
    row: &Vec<Weights>,
    cea: &mut Vec<CollationElement>,
    lv: &mut bool,
) -> (new_left: usize)
    requires
        left < right <= old(cv).len(),
        all_code_points(old(cv)@),
    ensures
        ({
            let s = matched(*t, cldr, old(cv)@, left as int, right as int, row@);
            &&& final(cv)@ == s.cv
            &&& new_left == s.left
            &&& final(cea)@ == old(cea)@ + source_ces(s.source, shifting, *old(lv))
            &&& *final(lv) == source_state(s.source, shifting, *old(lv))
        }),
        all_code_points(final(cv)@),
{
    proof {
        let mr0 = first_reach(cv.len() as int, right as int);
        lemma_discont_from_bounds(*t, cv@, left as int, right as int, mr0, mr0 - right == 2 && cldr);
    }
    match find_discontiguous(t, cldr, cv, left, right) {
        Some((found, mr, two)) => {
            push_row(cea, found, shifting, lv);
            proof {
                lemma_remove_keeps_code_points(cv@, mr as int);
            }
            cv.remove(mr);
            if two {
                proof {
                    lemma_remove_keeps_code_points(cv@, mr - 1);
                }
                cv.remove(mr - 1);
            }
            right
        },
        None => {
            push_row(cea, row, shifting, lv);
            right
        },
    }
}

/// One step of the generator at `left`; returns the new cursor.
fn gen_step(
    t: &KeyTables,
    cldr: bool,
    shifting: bool,
    cv: &mut Vec<u32>,
    left: usize,
    cea: &mut Vec<CollationElement>,
    lv: &mut bool,
) -> (new_left: usize)
    requires
        t.wf(),
        left < old(cv).len(),
        all_code_points(old(cv)@),
    ensures
        ({
            let s = step(*t, cldr, old(cv)@, left as int);
            &&& final(cv)@ == s.cv
            &&& new_left == s.left
            &&& final(cea)@ == old(cea)@ + source_ces(s.source, shifting, *old(lv))
            &&& *final(lv) == source_state(s.source, shifting, *old(lv))
        }),
        all_code_points(final(cv)@),
{
    let c = cv[left];
    if c < 183 && c != 108 && c != 76 {
        assert(is_low(c));
        match t.singles.get(&c) {
            Some(row) => {
                proof {
                    assert(row@ == seq![t.low@[c]]);
                }
                push_row(cea, row, shifting, lv);
            },
            None => {},
        }
        return left + 1;
    }
    let lookahead: usize = if is_need_three(c) {
        3
    } else if is_need_two(c) {
        2
    } else {
        1
    };
    let check_multi = lookahead > 1 && cv.len() - left > 1;
    if !check_multi {
        match t.singles.get(&c) {
            Some(row) => {
                push_row(cea, row, shifting, lv);
            },
            None => {
                push_implicit(cea, c, shifting);
            },
        }
        return left + 1;
    }
    let mut right: usize = if cv.len() - left < lookahead {
        cv.len()
    } else {
        left + lookahead
    };
    loop
        invariant
            left < right <= cv.len(),
            right <= left + 3,
            all_code_points(cv@),
            cv@ == old(cv)@,
            cea@ == old(cea)@,
            *lv == *old(lv),
            c == cv@[left as int],
            step(*t, cldr, cv@, left as int) == search(*t, cldr, cv@, left as int, right as int),
        decreases right - left,
    {
        if right - left == 1 {
            match t.singles.get(&c) {
                Some(row) => {
                    return emit_match(t, cldr, shifting, cv, left, right, row, cea, lv);
                },
                None => {
                    push_implicit(cea, c, shifting);
                    return left + 1;
                },
            }
        }
        let sub = slice_key(cv, left, right);
        match t.get_multi(&sub) {
            Some(row) => {
                return emit_match(t, cldr, shifting, cv, left, right, row, cea, lv);
            },
            None => {
                right = right - 1;
            },
        }
    }
}

/// The collation elements of `char_vals` under `opt`. Code points taken by
/// discontiguous matches are removed from `char_vals` on the way.
pub fn get_cea(char_vals: &mut Vec<u32>, opt: CollationOptions, tables: &CollationTables) -> (r: Vec<
    CollationElement,
>)
    requires
        tables.wf(),
        all_code_points(old(char_vals)@),
    ensures
        r@ == cea_of(*tables, opt, old(char_vals)@),
        final(char_vals)@ == residue_of(*tables, opt, old(char_vals)@),
{
    let cldr = opt.keys_source == KeysSource::Cldr;
    let shifting = opt.shifting;
    let t = tables.select(opt.keys_source);
    let ghost cv0 = char_vals@;
    let mut cea: Vec<CollationElement> = Vec::new();
    let mut left: usize = 0;
    let mut last_variable = false;
    while left < char_vals.len()
        invariant
            t.wf(),
            *t == tables.keys(opt.keys_source),
            cldr == (opt.keys_source == KeysSource::Cldr),
            shifting == opt.shifting,
            left <= char_vals.len(),
            all_code_points(char_vals@),
            cea@ + cea_from(*t, cldr, shifting, char_vals@, left as int, last_variable) == cea_from(
                *t,
                cldr,
                shifting,
                cv0,
                0,
                false,
            ),
            residue_from(*t, cldr, char_vals@, left as int) == residue_from(*t, cldr, cv0, 0),
        decreases char_vals.len() - left,
    {
        let ghost before = cea@;
        let ghost cv_before = char_vals@;
        let ghost lv_before = last_variable;
        let ghost left_before = left as int;
        proof {
            lemma_step_progress(*t, cldr, char_vals@, left as int);
        }
        left = gen_step(t, cldr, shifting, char_vals, left, &mut cea, &mut last_variable);
        proof {
            let s = step(*t, cldr, cv_before, left_before);
            let rest = cea_from(*t, cldr, shifting, char_vals@, left as int, last_variable);
            assert(cea_from(*t, cldr, shifting, cv_before, left_before, lv_before) == source_ces(
                s.source,
                shifting,
                lv_before,
            ) + rest);
            assert(cea@ + rest =~= before + (source_ces(s.source, shifting, lv_before) + rest));
        }
    }
    proof {
        assert(cea@ =~= cea@ + cea_from(*t, cldr, shifting, char_vals@, left as int, last_variable));
    }
    cea
}

} // verus!
