//! The generator read in context: a buffer with code points before the
//! cursor walks the rest as that rest alone, and a prefix without
//! contraction starters contributes its own elements; hence comparing
//! sort keys and collating without tiebreak agree.
use vstd::prelude::*;

use crate::cea::{
    candidate, cea_from, cea_of, Source, discont_from, discontiguous, first_reach, lemma_discont_from_bounds,
    lemma_step_progress, lookahead, matched, remove_taken, search, source_ces, source_state,
    state_from, step, window_ok, Step,
};
use crate::collate::{collation, key_of, string_key};
use crate::sort_key::{common_prefix, lemma_common_prefix_bounds, lemma_lex_cmp_reflexive, safe_prefix_end, ints16, key_levels, level_weights, lex_cmp, sort_key_of, starts_contraction};
use crate::tables::{is_low, CollationTables, KeyTables};
use crate::unicode::{code_points, nfd_code_points};
use crate::unicode::ccc_of;
use crate::sort_key::safe_record;
use crate::weights::{row_state, CollationElement, CollationOptions, KeysSource, Weights};

verus! {

/// `s` seen inside `p + s.cv`.
pub open spec fn shift_step(p: Seq<u32>, s: Step) -> Step {
    Step { source: s.source, cv: p + s.cv, left: p.len() + s.left }
}

pub open spec fn shift_found(n: int, f: Option<(Seq<Weights>, int, bool)>) -> Option<(Seq<Weights>, int, bool)> {
    match f {
        Some((row, m, two)) => Some((row, m + n, two)),
        None => None,
    }
}

proof fn lemma_window_shift(p: Seq<u32>, y: Seq<u32>, lo: int, hi: int)
    requires
        0 <= lo <= hi < y.len(),
    ensures
        window_ok(p + y, p.len() + lo, p.len() + hi) == window_ok(y, lo, hi),
{
    let cv = p + y;
    let n = p.len() as int;
    assert(cv[n + lo] == y[lo]);
    if window_ok(y, lo, hi) {
        assert forall|i: int| n + lo <= i < n + hi implies #[trigger] ccc_of(cv[i]) < ccc_of(cv[i + 1]) by {
            assert(cv[i] == y[i - n]);
            assert(cv[i + 1] == y[i - n + 1]);
            assert(ccc_of(y[i - n]) < ccc_of(y[i - n + 1]));
        }
    }
    if window_ok(cv, n + lo, n + hi) {
        assert forall|i: int| lo <= i < hi implies #[trigger] ccc_of(y[i]) < ccc_of(y[i + 1]) by {
            assert(cv[n + i] == y[i]);
            assert(cv[n + i + 1] == y[i + 1]);
            assert(ccc_of(cv[n + i]) < ccc_of(cv[n + i + 1]));
        }
    }
}

proof fn lemma_discont_shift(t: KeyTables, p: Seq<u32>, y: Seq<u32>, l: int, r: int, m: int, two: bool)
    requires
        0 <= l < r <= y.len(),
        r <= m,
        m == r || m < y.len(),
        two ==> m == r + 2,
    ensures
        discont_from(t, p + y, p.len() + l, p.len() + r, p.len() + m, two) == shift_found(
            p.len() as int,
            discont_from(t, y, l, r, m, two),
        ),
    decreases m - r, (if two { 1int } else { 0int }),
{
    let n = p.len() as int;
    if m > r {
        lemma_window_shift(p, y, r, m);
        if !window_ok(y, r, m) {
            lemma_discont_shift(t, p, y, l, r, m - 1, false);
        } else {
            assert(candidate(p + y, n + l, n + r, n + m, two) =~= candidate(y, l, r, m, two));
            match t.multi(candidate(y, l, r, m, two)) {
                Some(row) => {},
                None => if two {
                    lemma_discont_shift(t, p, y, l, r, m, false);
                } else {
                    lemma_discont_shift(t, p, y, l, r, m - 1, false);
                },
            }
        }
    }
}

proof fn lemma_matched_shift(t: KeyTables, cldr: bool, p: Seq<u32>, y: Seq<u32>, l: int, r: int, row: Seq<Weights>)
    requires
        0 <= l < r <= y.len(),
    ensures
        matched(t, cldr, p + y, p.len() + l, p.len() + r, row) == shift_step(p, matched(t, cldr, y, l, r, row)),
{
    let n = p.len() as int;
    let m0 = first_reach(y.len() as int, r);
    assert(first_reach((p + y).len() as int, n + r) == n + m0);
    lemma_discont_shift(t, p, y, l, r, m0, m0 - r == 2 && cldr);
    lemma_discont_from_bounds(t, y, l, r, m0, m0 - r == 2 && cldr);
    match discontiguous(t, cldr, y, l, r) {
        Some((found, m, two)) => {
            assert(remove_taken(p + y, n + m, two) =~= p + remove_taken(y, m, two));
        },
        None => {},
    }
}

proof fn lemma_search_shift(t: KeyTables, cldr: bool, p: Seq<u32>, y: Seq<u32>, l: int, r: int)
    requires
        0 <= l < r <= y.len(),
    ensures
        search(t, cldr, p + y, p.len() + l, p.len() + r) == shift_step(p, search(t, cldr, y, l, r)),
    decreases r - l,
{
    let n = p.len() as int;
    assert((p + y)[n + l] == y[l]);
    if r <= l + 1 {
        match t.single(y[l]) {
            Some(row) => lemma_matched_shift(t, cldr, p, y, l, l + 1, row),
            None => {},
        }
    } else {
        assert((p + y).subrange(n + l, n + r) =~= y.subrange(l, r));
        match t.multi(y.subrange(l, r)) {
            Some(row) => lemma_matched_shift(t, cldr, p, y, l, r, row),
            None => lemma_search_shift(t, cldr, p, y, l, r - 1),
        }
    }
}

/// A step reads only the code points from the cursor on.
pub proof fn lemma_step_shift(t: KeyTables, cldr: bool, p: Seq<u32>, y: Seq<u32>, k: int)
    requires
        0 <= k < y.len(),
    ensures
        step(t, cldr, p + y, p.len() + k) == shift_step(p, step(t, cldr, y, k)),
{
    let n = p.len() as int;
    let c = y[k];
    assert((p + y)[n + k] == c);
    if !is_low(c) && lookahead(c) > 1 && y.len() - k > 1 {
        let right = if k + lookahead(c) > y.len() { y.len() as int } else { k + lookahead(c) };
        lemma_search_shift(t, cldr, p, y, k, right);
    }
}

/// The generator walks `y[k..]` inside `p + y` as it walks it in `y`.
pub proof fn lemma_cea_shift(t: KeyTables, cldr: bool, shifting: bool, p: Seq<u32>, y: Seq<u32>, k: int, lv: bool)
    requires
        0 <= k,
    ensures
        cea_from(t, cldr, shifting, p + y, p.len() + k, lv) == cea_from(t, cldr, shifting, y, k, lv),
        state_from(t, cldr, shifting, p + y, p.len() + k, lv) == state_from(t, cldr, shifting, y, k, lv),
    decreases y.len() - k,
{
    if k < y.len() {
        lemma_step_shift(t, cldr, p, y, k);
        lemma_step_progress(t, cldr, y, k);
        let s = step(t, cldr, y, k);
        lemma_cea_shift(t, cldr, shifting, p, s.cv, s.left, source_state(s.source, shifting, lv));
    }
}

/// No code point of `p` may begin a contraction.
pub open spec fn no_starters(p: Seq<u32>) -> bool {
    forall|i: int| 0 <= i < p.len() ==> !starts_contraction(#[trigger] p[i])
}

/// A prefix without contraction starters is walked one code point at a
/// time, whatever follows it.
pub proof fn lemma_prefix_split(t: KeyTables, cldr: bool, shifting: bool, p: Seq<u32>, x: Seq<u32>, k: int, lv: bool)
    requires
        no_starters(p),
        0 <= k <= p.len(),
    ensures
        cea_from(t, cldr, shifting, p + x, k, lv) == cea_from(t, cldr, shifting, p, k, lv) + cea_from(
            t,
            cldr,
            shifting,
            p + x,
            p.len() as int,
            state_from(t, cldr, shifting, p, k, lv),
        ),
        state_from(t, cldr, shifting, p + x, k, lv) == state_from(
            t,
            cldr,
            shifting,
            p + x,
            p.len() as int,
            state_from(t, cldr, shifting, p, k, lv),
        ),
    decreases p.len() - k,
{
    let whole = p + x;
    if k == p.len() {
        assert(cea_from(t, cldr, shifting, p, k, lv) == Seq::<CollationElement>::empty());
        assert(cea_from(t, cldr, shifting, whole, p.len() as int, lv) =~= Seq::<CollationElement>::empty()
            + cea_from(t, cldr, shifting, whole, p.len() as int, lv));
    } else {
        let c = p[k];
        assert(whole[k] == c);
        assert(!starts_contraction(c));
        let sw = step(t, cldr, whole, k);
        let sp = step(t, cldr, p, k);
        assert(sw.source == sp.source && sw.cv == whole && sw.left == k + 1 && sp.cv == p && sp.left == k + 1);
        let lv2 = source_state(sp.source, shifting, lv);
        lemma_prefix_split(t, cldr, shifting, p, x, k + 1, lv2);
        assert(cea_from(t, cldr, shifting, whole, k, lv) == source_ces(sp.source, shifting, lv) + cea_from(
            t,
            cldr,
            shifting,
            whole,
            k + 1,
            lv2,
        ));
        assert(cea_from(t, cldr, shifting, p, k, lv) == source_ces(sp.source, shifting, lv) + cea_from(
            t,
            cldr,
            shifting,
            p,
            k + 1,
            lv2,
        ));
        let tail = cea_from(t, cldr, shifting, whole, p.len() as int, state_from(t, cldr, shifting, p, k, lv));
        assert(source_ces(sp.source, shifting, lv) + (cea_from(t, cldr, shifting, p, k + 1, lv2) + tail)
            =~= (source_ces(sp.source, shifting, lv) + cea_from(t, cldr, shifting, p, k + 1, lv2)) + tail);
    }
}

/// All values are positive.
pub open spec fn positive(s: Seq<int>) -> bool {
    forall|i: int| 0 <= i < s.len() ==> s[i] > 0
}

proof fn lemma_lex_common_prefix(p: Seq<int>, u: Seq<int>, v: Seq<int>)
    ensures
        lex_cmp(p + u, p + v) == lex_cmp(u, v),
    decreases p.len(),
{
    if p.len() == 0 {
        assert(p + u =~= u);
        assert(p + v =~= v);
    } else {
        assert((p + u).drop_first() =~= p.drop_first() + u);
        assert((p + v).drop_first() =~= p.drop_first() + v);
        lemma_lex_common_prefix(p.drop_first(), u, v);
    }
}

proof fn lemma_lex_block(x: Seq<int>, y: Seq<int>, r1: Seq<int>, r2: Seq<int>, s1: Seq<int>, s2: Seq<int>)
    requires
        positive(x),
        positive(y),
        x != y,
    ensures
        lex_cmp(x + seq![0int] + r1, y + seq![0int] + r2) == lex_cmp(x + seq![0int] + s1, y + seq![0int] + s2),
    decreases x.len(),
{
    let xr = x + seq![0int] + r1;
    let yr = y + seq![0int] + r2;
    let xs = x + seq![0int] + s1;
    let ys = y + seq![0int] + s2;
    if y.len() == 0 && x.len() == 0 {
        assert(x =~= y);
    }
    if x.len() == 0 {
        assert(y.len() > 0);
        assert(xr[0] == 0 && xs[0] == 0 && yr[0] == y[0] && ys[0] == y[0]);
    } else if y.len() == 0 {
        assert(yr[0] == 0 && ys[0] == 0 && xr[0] == x[0] && xs[0] == x[0]);
    } else {
        assert(xr[0] == x[0] && xs[0] == x[0] && yr[0] == y[0] && ys[0] == y[0]);
        if x[0] == y[0] {
            if x.drop_first() == y.drop_first() {
                assert(x =~= seq![x[0]] + x.drop_first());
                assert(y =~= seq![y[0]] + y.drop_first());
            }
            assert(xr.drop_first() =~= x.drop_first() + seq![0int] + r1);
            assert(yr.drop_first() =~= y.drop_first() + seq![0int] + r2);
            assert(xs.drop_first() =~= x.drop_first() + seq![0int] + s1);
            assert(ys.drop_first() =~= y.drop_first() + seq![0int] + s2);
            lemma_lex_block(x.drop_first(), y.drop_first(), r1, r2, s1, s2);
        }
    }
}

/// One level with a shared part `a` in front compares as the level without it.
proof fn lemma_level_step(
    a: Seq<int>,
    x: Seq<int>,
    y: Seq<int>,
    rax: Seq<int>,
    ray: Seq<int>,
    rx: Seq<int>,
    ry: Seq<int>,
)
    requires
        positive(x),
        positive(y),
        x == y ==> lex_cmp(rax, ray) == lex_cmp(rx, ry),
    ensures
        lex_cmp(a + x + seq![0int] + rax, a + y + seq![0int] + ray) == lex_cmp(
            x + seq![0int] + rx,
            y + seq![0int] + ry,
        ),
{
    assert(a + x + seq![0int] + rax =~= a + (x + seq![0int] + rax));
    assert(a + y + seq![0int] + ray =~= a + (y + seq![0int] + ray));
    lemma_lex_common_prefix(a, x + seq![0int] + rax, y + seq![0int] + ray);
    if x == y {
        assert(x + seq![0int] + rax =~= (x + seq![0int]) + rax);
        lemma_lex_common_prefix(x + seq![0int], rax, ray);
        lemma_lex_common_prefix(x + seq![0int], rx, ry);
    } else {
        lemma_lex_block(x, y, rax, ray, rx, ry);
    }
}

proof fn lemma_level_concat(a: Seq<CollationElement>, b: Seq<CollationElement>, level: int)
    ensures
        level_weights(a + b, level) == level_weights(a, level) + level_weights(b, level),
    decreases b.len(),
{
    if b.len() == 0 {
        assert(a + b =~= a);
        assert(level_weights(a, level) + level_weights(b, level) =~= level_weights(a, level));
    } else {
        assert((a + b).drop_last() =~= a + b.drop_last());
        lemma_level_concat(a, b.drop_last(), level);
        let la = level_weights(a, level);
        let lb = level_weights(b.drop_last(), level);
        let w = b.last().level(level);
        assert((la + lb).push(w) =~= la + lb.push(w));
    }
}

proof fn lemma_level_positive(cea: Seq<CollationElement>, level: int)
    ensures
        positive(ints16(level_weights(cea, level))),
    decreases cea.len(),
{
    if cea.len() > 0 {
        lemma_level_positive(cea.drop_last(), level);
        let rest = level_weights(cea.drop_last(), level);
        let w = cea.last().level(level);
        if w != 0 {
            assert(ints16(rest.push(w)) =~= ints16(rest).push(w as int));
        }
    }
}

/// The integer view of a sort key, level by level.
pub open spec fn lv(cea: Seq<CollationElement>, level: int) -> Seq<int> {
    ints16(level_weights(cea, level))
}

proof fn lemma_key_shape(cea: Seq<CollationElement>, shifting: bool)
    ensures
        !shifting ==> ints16(sort_key_of(cea, shifting)) =~= lv(cea, 0) + seq![0int] + (lv(cea, 1) + seq![0int]
            + lv(cea, 2)),
        shifting ==> ints16(sort_key_of(cea, shifting)) =~= lv(cea, 0) + seq![0int] + (lv(cea, 1) + seq![0int]
            + (lv(cea, 2) + seq![0int] + lv(cea, 3))),
{
    assert(key_levels(cea, 1) == level_weights(cea, 0));
    let k2 = key_levels(cea, 2);
    let k3 = key_levels(cea, 3);
    assert(k2 == level_weights(cea, 0).push(0) + level_weights(cea, 1));
    assert(k3 == k2.push(0) + level_weights(cea, 2));
    if shifting {
        assert(key_levels(cea, 4) == k3.push(0) + level_weights(cea, 3));
    }
}

proof fn lemma_ints16_concat(a: Seq<u16>, b: Seq<u16>)
    ensures
        ints16(a + b) =~= ints16(a) + ints16(b),
{
}

proof fn lemma_level_parts(a: Seq<CollationElement>, x: Seq<CollationElement>, y: Seq<CollationElement>, level: int)
    ensures
        lv(a + x, level) == lv(a, level) + lv(x, level),
        lv(a + y, level) == lv(a, level) + lv(y, level),
        positive(lv(x, level)),
        positive(lv(y, level)),
{
    lemma_level_concat(a, x, level);
    lemma_level_concat(a, y, level);
    lemma_ints16_concat(level_weights(a, level), level_weights(x, level));
    lemma_ints16_concat(level_weights(a, level), level_weights(y, level));
    lemma_level_positive(x, level);
    lemma_level_positive(y, level);
}

/// Elements in common in front change no order between sort keys.
pub proof fn lemma_keys_after_common(a: Seq<CollationElement>, x: Seq<CollationElement>, y: Seq<CollationElement>, shifting: bool)
    ensures
        lex_cmp(ints16(sort_key_of(a + x, shifting)), ints16(sort_key_of(a + y, shifting))) == lex_cmp(
            ints16(sort_key_of(x, shifting)),
            ints16(sort_key_of(y, shifting)),
        ),
{
    let z = seq![0int];
    lemma_level_parts(a, x, y, 0);
    lemma_level_parts(a, x, y, 1);
    lemma_level_parts(a, x, y, 2);
    lemma_level_parts(a, x, y, 3);
    lemma_key_shape(a + x, shifting);
    lemma_key_shape(a + y, shifting);
    lemma_key_shape(x, shifting);
    lemma_key_shape(y, shifting);
    let (a0, a1, a2, a3) = (lv(a, 0), lv(a, 1), lv(a, 2), lv(a, 3));
    let (x0, x1, x2, x3) = (lv(x, 0), lv(x, 1), lv(x, 2), lv(x, 3));
    let (y0, y1, y2, y3) = (lv(y, 0), lv(y, 1), lv(y, 2), lv(y, 3));
    assert(lv(a + x, 0) == a0 + x0 && lv(a + y, 0) == a0 + y0);
    assert(lv(a + x, 1) == a1 + x1 && lv(a + y, 1) == a1 + y1);
    assert(lv(a + x, 2) == a2 + x2 && lv(a + y, 2) == a2 + y2);
    assert(lv(a + x, 3) == a3 + x3 && lv(a + y, 3) == a3 + y3);
    if shifting {
        lemma_lex_common_prefix(a3, x3, y3);
        lemma_level_step(a2, x2, y2, a3 + x3, a3 + y3, x3, y3);
        let rax = a2 + x2 + z + (a3 + x3);
        let ray = a2 + y2 + z + (a3 + y3);
        let rx = x2 + z + x3;
        let ry = y2 + z + y3;
        lemma_level_step(a1, x1, y1, rax, ray, rx, ry);
        lemma_level_step(a0, x0, y0, a1 + x1 + z + rax, a1 + y1 + z + ray, x1 + z + rx, y1 + z + ry);
        assert(ints16(sort_key_of(a + x, shifting)) =~= a0 + x0 + z + (a1 + x1 + z + rax));
        assert(ints16(sort_key_of(a + y, shifting)) =~= a0 + y0 + z + (a1 + y1 + z + ray));
        assert(ints16(sort_key_of(x, shifting)) =~= x0 + z + (x1 + z + rx));
        assert(ints16(sort_key_of(y, shifting)) =~= y0 + z + (y1 + z + ry));
    } else {
        lemma_lex_common_prefix(a2, x2, y2);
        lemma_level_step(a1, x1, y1, a2 + x2, a2 + y2, x2, y2);
        lemma_level_step(a0, x0, y0, a1 + x1 + z + (a2 + x2), a1 + y1 + z + (a2 + y2), x1 + z + x2, y1 + z + y2);
        assert(ints16(sort_key_of(a + x, shifting)) =~= a0 + x0 + z + (a1 + x1 + z + (a2 + x2)));
        assert(ints16(sort_key_of(a + y, shifting)) =~= a0 + y0 + z + (a1 + y1 + z + (a2 + y2)));
    }
}

/// The trim drops the shared prefix of `na` and `nb`.
pub open spec fn trims(tables: CollationTables, opt: CollationOptions, na: Seq<u32>, nb: Seq<u32>) -> bool {
    let p = common_prefix(na, nb);
    p > 0 && safe_prefix_end(tables.keys(opt.keys_source), na[p - 1])
}

/// Every row of single code points holds at least one record.
pub open spec fn nonempty_rows(t: KeyTables) -> bool {
    forall|c: u32| #[trigger] t.singles@.contains_key(c) ==> t.singles@[c]@.len() > 0
}

proof fn lemma_row_state_plain(row: Seq<Weights>, lv: bool)
    ensures
        row_state(row, false, lv) == lv,
    decreases row.len(),
{
    if row.len() > 0 {
        lemma_row_state_plain(row.drop_last(), lv);
    }
}

proof fn lemma_state_plain(t: KeyTables, cldr: bool, cv: Seq<u32>, left: int, lv: bool)
    ensures
        state_from(t, cldr, false, cv, left, lv) == lv,
    decreases cv.len() - left,
{
    if 0 <= left < cv.len() {
        lemma_step_progress(t, cldr, cv, left);
        let s = step(t, cldr, cv, left);
        match s.source {
            Source::Row(row) => lemma_row_state_plain(row, lv),
            Source::Implicit(_) => {},
        }
        lemma_state_plain(t, cldr, s.cv, s.left, lv);
    }
}

/// After a prefix whose last code point has a nonempty safe row, the
/// variable state is clear.
proof fn lemma_prefix_state(t: KeyTables, cldr: bool, p: Seq<u32>, k: int, lv: bool)
    requires
        t.wf(),
        nonempty_rows(t),
        no_starters(p),
        0 <= k < p.len(),
        safe_prefix_end(t, p.last()),
    ensures
        state_from(t, cldr, true, p, k, lv) == false,
    decreases p.len() - k,
{
    let c = p[k];
    assert(!starts_contraction(c));
    let s = step(t, cldr, p, k);
    assert(s.left == k + 1 && s.cv == p);
    if k == p.len() - 1 {
        let row = t.singles@[c]@;
        assert(row.len() > 0);
        assert(s.source == Source::Row(row));
        assert(safe_record(row[row.len() - 1]));
        assert(row_state(row, true, lv) == false);
        assert(state_from(t, cldr, true, p, k + 1, false) == false);
        assert(state_from(t, cldr, true, p, k, lv) == state_from(t, cldr, true, p, k + 1, row_state(row, true, lv)));
    } else {
        lemma_prefix_state(t, cldr, p, k + 1, source_state(s.source, true, lv));
    }
}

/// Comparing sort keys lexicographically orders two strings as collating
/// them without tiebreak does: the prefix trim never changes the order.
pub proof fn lemma_sort_key_order(tables: CollationTables, opt: CollationOptions, a: Seq<char>, b: Seq<char>)
    requires
        tables.wf(),
        nonempty_rows(tables.keys(opt.keys_source)),
    ensures
        lex_cmp(ints16(string_key(tables, opt, a)), ints16(string_key(tables, opt, b))) == collation(
            tables,
            opt,
            a,
            b,
            false,
        ),
{
    let na = nfd_code_points(tables.fcd@, a);
    let nb = nfd_code_points(tables.fcd@, b);
    let t = tables.keys(opt.keys_source);
    let cldr = opt.keys_source == KeysSource::Cldr;
    let sh = opt.shifting;
    if code_points(a) == code_points(b) || na == nb {
        assert(na == nb);
        lemma_lex_cmp_reflexive(ints16(key_of(tables, opt, na)));
    } else {
        if trims(tables, opt, na, nb) {
            let p = common_prefix(na, nb);
            lemma_common_prefix_bounds(na, nb);
            let pre = na.take(p);
            let x = na.skip(p);
            let y = nb.skip(p);
            assert(na =~= pre + x);
            assert(nb =~= pre + y);
            assert(no_starters(pre));
            if sh {
                lemma_prefix_state(t, cldr, pre, 0, false);
            } else {
                lemma_state_plain(t, cldr, pre, 0, false);
            }
            lemma_prefix_split(t, cldr, sh, pre, x, 0, false);
            lemma_prefix_split(t, cldr, sh, pre, y, 0, false);
            lemma_cea_shift(t, cldr, sh, pre, x, 0, false);
            lemma_cea_shift(t, cldr, sh, pre, y, 0, false);
            let ca = cea_from(t, cldr, sh, pre, 0, false);
            assert(cea_of(tables, opt, na) == ca + cea_of(tables, opt, x));
            assert(cea_of(tables, opt, nb) == ca + cea_of(tables, opt, y));
            lemma_keys_after_common(ca, cea_of(tables, opt, x), cea_of(tables, opt, y), sh);
        }
    }
}

} // verus!
