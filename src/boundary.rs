//! The generator at its edges: ignorables after a variable element, and a
//! contraction matched across an intervening non-starter.
use vstd::prelude::*;

use crate::cea::{
    cea_from, discont_from, discontiguous, lemma_step_progress, lookahead, matched, residue_from, search,
    step, window_ok, Source,
};
use crate::equivalence::no_starters;
use crate::sort_key::starts_contraction;
use crate::tables::{is_low, need_three, need_two, KeyTables};
use crate::unicode::ccc_of;
use crate::weights::{row_ces, row_state, CollationElement, Weights};

verus! {

/// The element that carries nothing at any level.
pub open spec fn zero_ce() -> CollationElement {
    CollationElement { primary: 0, secondary: 0, tertiary: 0, quaternary: 0 }
}

/// A record that is ignorable at the first level but not at the third.
pub open spec fn primary_ignorable(u: Weights) -> bool {
    !u.variable && u.primary == 0 && u.tertiary != 0
}

/// The row of `c` is one record, ignorable at the first level but not at the third.
pub open spec fn ignorable_row(t: KeyTables, c: u32) -> bool {
    match t.single(c) {
        Some(r) => r.len() == 1 && primary_ignorable(r[0]),
        None => false,
    }
}

proof fn lemma_single_row(w: Weights, shifting: bool, lv: bool)
    ensures
        row_ces(seq![w], shifting, lv) == seq![crate::weights::ce_of(w, shifting, lv)],
        row_state(seq![w], shifting, lv) == crate::weights::state_after(w, shifting, lv),
{
    assert(seq![w].drop_last() =~= Seq::<Weights>::empty());
    assert(seq![w].last() == w);
    assert(row_ces(Seq::<Weights>::empty(), shifting, lv) == Seq::<CollationElement>::empty());
    assert(row_state(Seq::<Weights>::empty(), shifting, lv) == lv);
    assert(Seq::<CollationElement>::empty().push(crate::weights::ce_of(w, shifting, lv)) =~= seq![
        crate::weights::ce_of(w, shifting, lv),
    ]);
}

/// The step at `k` over a code point that begins no contraction takes its
/// single row.
proof fn lemma_single_step(t: KeyTables, cldr: bool, cv: Seq<u32>, k: int, row: Seq<Weights>)
    requires
        t.wf(),
        0 <= k < cv.len(),
        !starts_contraction(cv[k]),
        t.single(cv[k]) == Some(row),
    ensures
        step(t, cldr, cv, k).source == Source::Row(row),
        step(t, cldr, cv, k).cv == cv,
        step(t, cldr, cv, k).left == k + 1,
{
}

proof fn lemma_ignorable_run(t: KeyTables, cldr: bool, cv: Seq<u32>, k: int)
    requires
        t.wf(),
        1 <= k <= cv.len(),
        no_starters(cv),
        forall|j: int|
            1 <= j < cv.len() ==> #[trigger] ignorable_row(t, cv[j]),
    ensures
        cea_from(t, cldr, true, cv, k, true) == Seq::new((cv.len() - k) as nat, |i: int| zero_ce()),
    decreases cv.len() - k,
{
    if k < cv.len() {
        assert(ignorable_row(t, cv[k]));
        let r = t.single(cv[k])->0;
        assert(r =~= seq![r[0]]);
        lemma_single_step(t, cldr, cv, k, r);
        lemma_single_row(r[0], true, true);
        lemma_step_progress(t, cldr, cv, k);
        lemma_ignorable_run(t, cldr, cv, k + 1);
        assert(cea_from(t, cldr, true, cv, k, true) == seq![zero_ce()] + cea_from(t, cldr, true, cv, k + 1, true));
        assert(seq![zero_ce()] + Seq::new((cv.len() - k - 1) as nat, |i: int| zero_ce()) =~= Seq::new(
            (cv.len() - k) as nat,
            |i: int| zero_ce(),
        ));
    } else {
        assert(Seq::new(0nat, |i: int| zero_ce()) =~= Seq::<CollationElement>::empty());
    }
}

/// With shifting, a variable element followed by records ignorable at the
/// first level but not at the third: those become fully ignorable, and the
/// variable state stays set throughout.
pub proof fn lemma_ignorables_after_variable(t: KeyTables, cldr: bool, cv: Seq<u32>, w: Weights)
    requires
        t.wf(),
        cv.len() >= 1,
        no_starters(cv),
        t.single(cv[0]) == Some(seq![w]),
        w.variable,
        !w.is_ignorable(),
        forall|j: int|
            1 <= j < cv.len() ==> #[trigger] ignorable_row(t, cv[j]),
    ensures
        cea_from(t, cldr, true, cv, 0, false) == seq![
            CollationElement { primary: 0, secondary: 0, tertiary: 0, quaternary: w.primary },
        ] + Seq::new((cv.len() - 1) as nat, |i: int| zero_ce()),
{
    lemma_single_step(t, cldr, cv, 0, seq![w]);
    lemma_single_row(w, true, false);
    lemma_step_progress(t, cldr, cv, 0);
    lemma_ignorable_run(t, cldr, cv, 1);
}

/// Without shifting: `x`, which may begin a contraction of two but not of
/// three, then non-starters `y` and `z` of increasing class, where `x y`
/// is no contraction but `x z` is. The contraction `x z` is taken across
/// `y`, `z` leaves the buffer, and `y` follows with its own row.
pub proof fn lemma_discontiguous_across_one(
    t: KeyTables,
    cldr: bool,
    x: u32,
    y: u32,
    z: u32,
    m: Seq<Weights>,
    ry: Seq<Weights>,
)
    requires
        t.wf(),
        need_two(x),
        !need_three(x),
        t.single(x) is Some,
        t.multi(seq![x, y]) is None,
        t.multi(seq![x, z]) == Some(m),
        t.single(y) == Some(ry),
        0 < ccc_of(y) < ccc_of(z),
    ensures
        cea_from(t, cldr, false, seq![x, y, z], 0, false) == row_ces(m, false, false) + row_ces(ry, false, false),
        residue_from(t, cldr, seq![x, y, z], 0) == seq![x, y],
{
    let cv = seq![x, y, z];
    assert(cv.subrange(0, 2) =~= seq![x, y]);
    assert(cv.subrange(0, 1).push(cv[2]) =~= seq![x, z]);
    assert(cv.remove(2) =~= seq![x, y]);
    let rx = t.single(x)->0;
    assert(!is_low(x));
    assert(lookahead(x) == 2);
    assert(window_ok(cv, 1, 2));
    assert(discont_from(t, cv, 0, 1, 2, false) == Some((m, 2int, false)));
    assert(discontiguous(t, cldr, cv, 0, 1) == Some((m, 2int, false)));
    assert(matched(t, cldr, cv, 0, 1, rx).source == Source::Row(m));
    assert(search(t, cldr, cv, 0, 1) == matched(t, cldr, cv, 0, 1, rx));
    assert(search(t, cldr, cv, 0, 2) == search(t, cldr, cv, 0, 1));
    let s = step(t, cldr, cv, 0);
    assert(s == search(t, cldr, cv, 0, 2));
    assert(s.source == Source::Row(m) && s.cv == seq![x, y] && s.left == 1);
    let rest = seq![x, y];
    let s2 = step(t, cldr, rest, 1);
    assert(s2.source == Source::Row(ry) && s2.cv == rest && s2.left == 2);
    lemma_step_progress(t, cldr, cv, 0);
    lemma_step_progress(t, cldr, rest, 1);
    lemma_row_state_plain(m, false);
    lemma_row_state_plain(ry, false);
    assert(cea_from(t, cldr, false, cv, 0, false) == row_ces(m, false, false) + cea_from(t, cldr, false, rest, 1, false));
    assert(cea_from(t, cldr, false, rest, 1, false) == row_ces(ry, false, false) + cea_from(t, cldr, false, rest, 2, false));
    assert(cea_from(t, cldr, false, rest, 2, false) == Seq::<CollationElement>::empty());
    assert(row_ces(ry, false, false) + Seq::<CollationElement>::empty() =~= row_ces(ry, false, false));
    assert(residue_from(t, cldr, cv, 0) == residue_from(t, cldr, rest, 1));
    assert(residue_from(t, cldr, rest, 1) == residue_from(t, cldr, rest, 2));
}

proof fn lemma_row_state_plain(row: Seq<Weights>, lv: bool)
    ensures
        row_state(row, false, lv) == lv,
    decreases row.len(),
{
    if row.len() > 0 {
        lemma_row_state_plain(row.drop_last(), lv);
    }
}

/// The element of a record without shifting: its three weights.
pub open spec fn plain_ce(w: Weights) -> CollationElement {
    CollationElement { primary: w.primary, secondary: w.secondary, tertiary: w.tertiary, quaternary: 0 }
}

/// Without shifting, code points of the low fast path give one element
/// each: the three weights of their record.
pub proof fn lemma_low_run(t: KeyTables, cldr: bool, cv: Seq<u32>, k: int, lv: bool)
    requires
        t.wf(),
        0 <= k <= cv.len(),
        forall|i: int| 0 <= i < cv.len() ==> #[trigger] is_low(cv[i]),
    ensures
        cea_from(t, cldr, false, cv, k, lv) == cv.skip(k).map_values(|c: u32| plain_ce(t.low@[c])),
    decreases cv.len() - k,
{
    if k < cv.len() {
        let c = cv[k];
        assert(is_low(c));
        lemma_single_row(t.low@[c], false, lv);
        lemma_step_progress(t, cldr, cv, k);
        lemma_low_run(t, cldr, cv, k + 1, lv);
        assert(step(t, cldr, cv, k).source == Source::Row(seq![t.low@[c]]));
        assert(cv.skip(k).map_values(|c: u32| plain_ce(t.low@[c])) =~= seq![plain_ce(t.low@[c])]
            + cv.skip(k + 1).map_values(|c: u32| plain_ce(t.low@[c])));
    } else {
        assert(cv.skip(k).map_values(|c: u32| plain_ce(t.low@[c])) =~= Seq::<CollationElement>::empty());
    }
}

} // verus!
