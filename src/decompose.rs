//! Canonical decomposition from a decomposition table: Hangul syllables
//! by arithmetic, other code points by lookup.
use std::collections::{HashMap, HashSet};
use vstd::prelude::*;
use vstd::std_specs::hash::group_hash_axioms;

use crate::unicode::{canonical_combining_class, ccc_of};

verus! {

broadcast use group_hash_axioms;

pub const S_BASE: u32 = 0xAC00;
pub const S_LAST: u32 = 0xD7A3;
pub const L_BASE: u32 = 0x1100;
pub const V_BASE: u32 = 0x1161;
pub const T_BASE: u32 = 0x11A7;
pub const T_COUNT: u32 = 28;
pub const N_COUNT: u32 = 588;

pub open spec fn is_hangul_syllable(c: u32) -> bool {
    S_BASE <= c <= S_LAST
}

/// The conjoining jamo of a Hangul syllable: leading consonant and vowel,
/// and the trailing consonant unless the syllable is of the LV kind.
pub open spec fn jamo_of(s: u32, lv: bool) -> Seq<u32> {
    let s_index = s - S_BASE;
    let l = (L_BASE + s_index / (N_COUNT as int)) as u32;
    let v = (V_BASE + (s_index % (N_COUNT as int)) / (T_COUNT as int)) as u32;
    let t = (T_BASE + s_index % (T_COUNT as int)) as u32;
    if lv {
        seq![l, v]
    } else {
        seq![l, v, t]
    }
}

/// Decomposes a Hangul syllable; `lv_syllables` holds those without a trailing consonant.
pub fn decompose_jamo(s: u32, lv_syllables: &HashSet<u32>) -> (r: Vec<u32>)
    requires
        is_hangul_syllable(s),
    ensures
        r@ == jamo_of(s, lv_syllables@.contains(s)),
{
    let s_index = s - S_BASE;
    let lv = lv_syllables.contains(&s);
    let l_index = s_index / N_COUNT;
    let v_index = (s_index % N_COUNT) / T_COUNT;
    let l_part = L_BASE + l_index;
    let v_part = V_BASE + v_index;
    if lv {
        vec![l_part, v_part]
    } else {
        let t_index = s_index % T_COUNT;
        let t_part = T_BASE + t_index;
        vec![l_part, v_part, t_part]
    }
}

/// What one code point becomes.
pub open spec fn piece(c: u32, decomp: Map<u32, Vec<u32>>, lv_syllables: Set<u32>) -> Seq<u32> {
    if is_hangul_syllable(c) {
        jamo_of(c, lv_syllables.contains(c))
    } else if decomp.contains_key(c) {
        decomp[c]@
    } else {
        seq![c]
    }
}

/// Each code point replaced by its piece, once (pieces are not decomposed again).
pub open spec fn expand(s: Seq<u32>, decomp: Map<u32, Vec<u32>>, lv_syllables: Set<u32>) -> Seq<u32>
    decreases s.len(),
{
    if s.len() == 0 {
        seq![]
    } else {
        expand(s.drop_last(), decomp, lv_syllables) + piece(s.last(), decomp, lv_syllables)
    }
}

/// Replaces each code point of `input` by its decomposition.
pub fn decompose(input: &mut Vec<u32>, decomp: &HashMap<u32, Vec<u32>>, lv_syllables: &HashSet<u32>)
    ensures
        final(input)@ == expand(old(input)@, decomp@, lv_syllables@),
{
    let mut out: Vec<u32> = Vec::new();
    let mut i: usize = 0;
    while i < input.len()
        invariant
            i <= input.len(),
            out@ == expand(input@.take(i as int), decomp@, lv_syllables@),
        decreases input.len() - i,
    {
        let c = input[i];
        proof {
            assert(input@.take(i + 1).drop_last() =~= input@.take(i as int));
        }
        let ghost before = out@;
        if S_BASE <= c && c <= S_LAST {
            let rep = decompose_jamo(c, lv_syllables);
            append_all(&mut out, &rep);
        } else {
            match decomp.get(&c) {
                Some(rep) => {
                    append_all(&mut out, rep);
                },
                None => {
                    out.push(c);
                    assert(out@ =~= before + seq![c]);
                },
            }
        }
        i = i + 1;
    }
    proof {
        assert(input@.take(input.len() as int) =~= input@);
    }
    *input = out;
}

fn append_all(out: &mut Vec<u32>, rep: &Vec<u32>)
    ensures
        final(out)@ == old(out)@ + rep@,
{
    let mut k: usize = 0;
    while k < rep.len()
        invariant
            k <= rep.len(),
            out@ == old(out)@ + rep@.take(k as int),
        decreases rep.len() - k,
    {
        out.push(rep[k]);
        k = k + 1;
        assert(out@ =~= old(out)@ + rep@.take(k as int));
    }
    assert(rep@.take(rep.len() as int) =~= rep@);
}

/// No starter lies in `x[k+1..=j]`.
pub open spec fn joined(x: Seq<u32>, k: int, j: int) -> bool {
    forall|m: int| k < m <= j ==> ccc_of(#[trigger] x[m]) > 0
}

/// `x[j]` has a class at least that of every non-starter before it in its
/// run of non-starters.
pub open spec fn dominates(x: Seq<u32>, j: int) -> bool {
    forall|k: int|
        0 <= k < j && #[trigger] joined(x, k, j) && ccc_of(x[k]) > 0 ==> ccc_of(x[k]) <= ccc_of(x[j])
}

/// Canonical order: no non-starter follows one of a higher class.
pub open spec fn canonically_ordered(x: Seq<u32>) -> bool {
    forall|i: int| 0 < i < x.len() ==> !(ccc_of(#[trigger] x[i - 1]) > ccc_of(x[i]) && ccc_of(x[i]) > 0)
}

/// Every code point from `x[k]` to `x[j]`, both included, is a non-starter
/// (or `k == j`): moving from `j` to `k` stays inside one run.
pub open spec fn same_run(x: Seq<u32>, k: int, j: int) -> bool {
    k == j || forall|m: int| (k <= m <= j || j <= m <= k) ==> ccc_of(#[trigger] x[m]) > 0
}

/// `new[k]` is `old[perm[k]]`: each code point moves inside its own run, no
/// two positions take the same one, and code points of one class keep
/// their order.
pub open spec fn run_permutation(old: Seq<u32>, new: Seq<u32>, perm: Seq<int>) -> bool {
    &&& perm.len() == new.len() == old.len()
    &&& forall|k: int|
        0 <= k < new.len() ==> 0 <= #[trigger] perm[k] < old.len() && new[k] == old[perm[k]] && same_run(
            old,
            k,
            perm[k],
        )
    &&& forall|k1: int, k2: int| 0 <= k1 < k2 < new.len() ==> #[trigger] perm[k1] != #[trigger] perm[k2]
    &&& forall|k1: int, k2: int|
        0 <= k1 < k2 < new.len() && ccc_of(new[k1]) == ccc_of(new[k2]) ==> #[trigger] perm[k1]
            < #[trigger] perm[k2]
}

proof fn lemma_swap_permutation(old: Seq<u32>, x: Seq<u32>, perm: Seq<int>, i: int)
    requires
        run_permutation(old, x, perm),
        0 < i < x.len(),
        ccc_of(x[i - 1]) > ccc_of(x[i]),
        ccc_of(x[i]) > 0,
        forall|k: int| 0 <= k < x.len() ==> (ccc_of(old[k]) == 0 <==> ccc_of(#[trigger] x[k]) == 0),
    ensures
        run_permutation(
            old,
            x.update(i - 1, x[i]).update(i, x[i - 1]),
            perm.update(i - 1, perm[i]).update(i, perm[i - 1]),
        ),
{
    let y = x.update(i - 1, x[i]).update(i, x[i - 1]);
    let q = perm.update(i - 1, perm[i]).update(i, perm[i - 1]);
    assert(ccc_of(old[i - 1]) > 0 && ccc_of(old[i]) > 0) by {
        assert(ccc_of(x[i - 1]) != 0);
        assert(ccc_of(x[i]) != 0);
    }
    assert forall|k: int| 0 <= k < y.len() implies 0 <= #[trigger] q[k] < old.len() && y[k] == old[q[k]]
        && same_run(old, k, q[k]) by {
        if k == i - 1 {
            assert(same_run(old, i, perm[i]));
            assert forall|m: int| (k <= m <= q[k] || q[k] <= m <= k) implies ccc_of(#[trigger] old[m]) > 0 by {
                if m != i - 1 && m != i {
                    assert(i <= m <= perm[i] || perm[i] <= m <= i);
                }
            }
        } else if k == i {
            assert(same_run(old, i - 1, perm[i - 1]));
            assert forall|m: int| (k <= m <= q[k] || q[k] <= m <= k) implies ccc_of(#[trigger] old[m]) > 0 by {
                if m != i - 1 && m != i {
                    assert(i - 1 <= m <= perm[i - 1] || perm[i - 1] <= m <= i - 1);
                }
            }
        } else {
            assert(q[k] == perm[k]);
        }
    }
    assert forall|k1: int, k2: int| 0 <= k1 < k2 < y.len() implies #[trigger] q[k1] != #[trigger] q[k2] by {
        let p1 = if k1 == i - 1 { i } else if k1 == i { i - 1 } else { k1 };
        let p2 = if k2 == i - 1 { i } else if k2 == i { i - 1 } else { k2 };
        assert(q[k1] == perm[p1] && q[k2] == perm[p2]);
        if p1 < p2 {
            assert(perm[p1] != perm[p2]);
        } else {
            assert(perm[p2] != perm[p1]);
        }
    }
    assert forall|k1: int, k2: int|
        0 <= k1 < k2 < y.len() && ccc_of(y[k1]) == ccc_of(y[k2]) implies #[trigger] q[k1] < #[trigger] q[k2] by {
        let p1 = if k1 == i - 1 { i } else if k1 == i { i - 1 } else { k1 };
        let p2 = if k2 == i - 1 { i } else if k2 == i { i - 1 } else { k2 };
        assert(q[k1] == perm[p1] && q[k2] == perm[p2]);
        assert(y[k1] == x[p1] && y[k2] == x[p2]);
        assert(p1 < p2);
        assert(perm[p1] < perm[p2]);
    }
}

proof fn lemma_swap_multiset(s: Seq<u32>, i: int)
    requires
        0 < i < s.len(),
    ensures
        s.update(i - 1, s[i]).update(i, s[i - 1]).to_multiset() == s.to_multiset(),
{
    broadcast use vstd::seq_lib::to_multiset_update, vstd::multiset::group_multiset_axioms, vstd::seq_lib::to_multiset_contains;
    let a = s[i - 1];
    let b = s[i];
    let s1 = s.update(i - 1, b);
    assert(s1[i] == b);
    assert(s.to_multiset().count(a) > 0);
    assert(s.to_multiset().insert(b).remove(a).insert(a).remove(b) =~= s.to_multiset());
}

/// Swapping two adjacent non-starters keeps the runs and what lies in them.
proof fn lemma_swap_keeps_dominance(x: Seq<u32>, i: int, j: int)
    requires
        0 < i < j < x.len(),
        ccc_of(x[i - 1]) > 0,
        ccc_of(x[i]) > 0,
        dominates(x, j),
    ensures
        dominates(x.update(i - 1, x[i]).update(i, x[i - 1]), j),
{
    let y = x.update(i - 1, x[i]).update(i, x[i - 1]);
    assert forall|k: int| 0 <= k < j && #[trigger] joined(y, k, j) && ccc_of(y[k]) > 0 implies ccc_of(y[k])
        <= ccc_of(y[j]) by {
        assert(y[j] == x[j]);
        if k == i - 1 {
            assert(joined(x, i, j)) by {
                assert forall|m: int| i < m <= j implies ccc_of(#[trigger] x[m]) > 0 by {
                    assert(y[m] == x[m]);
                }
            }
        } else if k == i {
            assert(joined(x, i - 1, j)) by {
                assert forall|m: int| i - 1 < m <= j implies ccc_of(#[trigger] x[m]) > 0 by {
                    if m != i {
                        assert(y[m] == x[m]);
                    }
                }
            }
        } else {
            assert(y[k] == x[k]);
            assert(joined(x, k, j)) by {
                assert forall|m: int| k < m <= j implies ccc_of(#[trigger] x[m]) > 0 by {
                    if m == i || m == i - 1 {
                    } else {
                        assert(y[m] == x[m]);
                    }
                }
            }
        }
    }
}

/// Puts each run of non-starters in canonical order by exchanging adjacent
/// non-starters: starters stay where they are, every code point stays in its
/// run, and code points of one class keep their order.
pub fn reorder(input: &mut Vec<u32>)
    ensures
        final(input)@.len() == old(input)@.len(),
        final(input)@.to_multiset() == old(input)@.to_multiset(),
        forall|i: int| 0 <= i < old(input)@.len() && ccc_of(old(input)@[i]) == 0 ==> final(input)@[i] == old(input)@[i],
        canonically_ordered(final(input)@),
        exists|perm: Seq<int>| run_permutation(old(input)@, final(input)@, perm),
{
    let ghost perm = Seq::new(input@.len(), |k: int| k);
    assert(run_permutation(old(input)@, input@, perm));
    let mut n: usize = input.len();
    while n > 1
        invariant
            n <= input.len(),
            input@.len() == old(input)@.len(),
            input@.to_multiset() == old(input)@.to_multiset(),
            forall|i: int| 0 <= i < input@.len() && ccc_of(old(input)@[i]) == 0 ==> input@[i] == old(input)@[i],
            forall|i: int| 0 <= i < input@.len() ==> (ccc_of(old(input)@[i]) == 0 <==> ccc_of(#[trigger] input@[i]) == 0),
            forall|j: int| n <= j < input@.len() ==> dominates(input@, j),
            run_permutation(old(input)@, input@, perm),
        decreases n,
    {
        let mut new_n: usize = 0;
        let mut i: usize = 1;
        while i < n
            invariant
                1 <= i <= n + 1,
                n <= input.len(),
                new_n < n,
                new_n < i,
                input@.len() == old(input)@.len(),
                input@.to_multiset() == old(input)@.to_multiset(),
                forall|k: int| 0 <= k < input@.len() && ccc_of(old(input)@[k]) == 0 ==> input@[k] == old(input)@[k],
                forall|k: int| 0 <= k < input@.len() ==> (ccc_of(old(input)@[k]) == 0 <==> ccc_of(#[trigger] input@[k]) == 0),
                forall|j: int| n <= j < input@.len() ==> dominates(input@, j),
                forall|j: int| new_n <= j < i && j < input@.len() ==> dominates(input@, j),
                run_permutation(old(input)@, input@, perm),
            decreases n + 1 - i,
        {
            let ccc_b = canonical_combining_class(input[i]);
            if ccc_b == 0 {
                proof {
                    assert forall|j: int| new_n <= j < i + 2 && j < input@.len() implies dominates(input@, j) by {
                        if j == i || j == i + 1 {
                            assert forall|k: int| 0 <= k < j && #[trigger] joined(input@, k, j) && ccc_of(input@[k]) > 0
                                implies ccc_of(input@[k]) <= ccc_of(input@[j]) by {
                                if k < i {
                                    assert(ccc_of(input@[i as int]) == 0);
                                }
                            }
                        }
                    }
                }
                i = if n - i > 1 { i + 2 } else { n };
                continue;
            }
            let ccc_a = canonical_combining_class(input[i - 1]);
            if ccc_a == 0 || ccc_a <= ccc_b {
                proof {
                    let x = input@;
                    assert(dominates(x, i - 1));
                    assert(ccc_of(x[i - 1]) == ccc_a && ccc_of(x[i as int]) == ccc_b);
                    assert forall|k: int| 0 <= k < i && #[trigger] joined(x, k, i as int) && ccc_of(x[k]) > 0
                        implies ccc_of(x[k]) <= ccc_of(x[i as int]) by {
                        if k < i - 1 {
                            assert(ccc_of(x[i - 1]) > 0);
                            assert(joined(x, k, i - 1));
                        }
                    }
                }
                i = i + 1;
                continue;
            }
            let ghost x = input@;
            let a = input[i - 1];
            let b = input[i];
            input.set(i - 1, b);
            input.set(i, a);
            proof {
                let y = input@;
                assert(dominates(x, i - 1));
                assert(y == x.update(i - 1, x[i as int]).update(i as int, x[i - 1]));
                lemma_swap_multiset(x, i as int);
                lemma_swap_permutation(old(input)@, x, perm, i as int);
                assert forall|j: int| n <= j < y.len() implies dominates(y, j) by {
                    lemma_swap_keeps_dominance(x, i as int, j);
                }
                assert forall|k: int| 0 <= k < i && #[trigger] joined(y, k, i as int) && ccc_of(y[k]) > 0
                    implies ccc_of(y[k]) <= ccc_of(y[i as int]) by {
                    if k < i - 1 {
                        assert(y[k] == x[k]);
                        assert(joined(x, k, i - 1)) by {
                            assert forall|m: int| k < m <= i - 1 implies ccc_of(#[trigger] x[m]) > 0 by {
                                if m < i - 1 {
                                    assert(y[m] == x[m]);
                                }
                            }
                        }
                    }
                }
                assert forall|k: int| 0 <= k < y.len() && ccc_of(old(input)@[k]) == 0 implies y[k] == old(input)@[k] by {
                    if k == i || k == i - 1 {
                        assert(ccc_of(x[k]) > 0);
                    }
                }
            }
            proof {
                perm = perm.update(i - 1, perm[i as int]).update(i as int, perm[i - 1]);
            }
            new_n = i;
            i = i + 1;
        }
        n = new_n;
    }
    proof {
        assert forall|i: int| 0 < i < input@.len() implies !(ccc_of(#[trigger] input@[i - 1]) > ccc_of(input@[i])
            && ccc_of(input@[i]) > 0) by {
            if ccc_of(input@[i]) > 0 {
                assert(dominates(input@, i));
                assert(joined(input@, i - 1, i));
            }
        }
    }
}

/// Ranges whose code points get no entry in the decomposition and FCD
/// tables: ideographs, Hangul syllables, surrogates and private use.
pub open spec fn excluded_from_tables(c: u32) -> bool {
    (0x3400 <= c <= 0x4DBF) || (0x4E00 <= c <= 0x9FFF) || (0xAC00 <= c <= 0xD7A3) || (0xD800 <= c
        <= 0xDFFF) || (0xE000 <= c <= 0xF8FF) || (0x17000 <= c <= 0x187F7) || (0x18D00 <= c <= 0x18D08)
        || (0x20000 <= c <= 0x2A6DF) || (0x2A700 <= c <= 0x2B738) || (0x2B740 <= c <= 0x2B81D) || (
    0x2B820 <= c <= 0x2CEA1) || (0x2CEB0 <= c <= 0x2EBE0) || (0x30000 <= c <= 0x3134A) || (0xF0000
        <= c <= 0xFFFFD) || (0x10_0000 <= c <= 0x10_FFFD)
}

pub fn is_excluded_from_tables(c: u32) -> (r: bool)
    ensures
        r == excluded_from_tables(c),
{
    (0x3400 <= c && c <= 0x4DBF) || (0x4E00 <= c && c <= 0x9FFF) || (0xAC00 <= c && c <= 0xD7A3) || (
    0xD800 <= c && c <= 0xDFFF) || (0xE000 <= c && c <= 0xF8FF) || (0x17000 <= c && c <= 0x187F7) || (
    0x18D00 <= c && c <= 0x18D08) || (0x20000 <= c && c <= 0x2A6DF) || (0x2A700 <= c && c <= 0x2B738)
        || (0x2B740 <= c && c <= 0x2B81D) || (0x2B820 <= c && c <= 0x2CEA1) || (0x2CEB0 <= c && c
        <= 0x2EBE0) || (0x30000 <= c && c <= 0x3134A) || (0xF0000 <= c && c <= 0xFFFFD) || (0x10_0000
        <= c && c <= 0x10_FFFD)
}

/// The canonical decomposition of `cp` followed through `direct` (each code
/// point to its one-level canonical decomposition) at most `depth` levels deep.
pub open spec fn full_decomposition(direct: Map<u32, Vec<u32>>, cp: u32, depth: nat) -> Seq<u32>
    decreases depth, 0nat,
{
    if depth == 0 || !direct.contains_key(cp) {
        seq![cp]
    } else {
        full_decomposition_of(direct, direct[cp]@, (depth - 1) as nat)
    }
}

/// The decompositions of the code points of `s`, one after the other.
pub open spec fn full_decomposition_of(direct: Map<u32, Vec<u32>>, s: Seq<u32>, depth: nat) -> Seq<u32>
    decreases depth, s.len(),
{
    if s.len() == 0 {
        seq![]
    } else {
        full_decomposition_of(direct, s.drop_last(), depth) + full_decomposition(direct, s.last(), depth)
    }
}

/// Follows the canonical decompositions of `cp` through `direct`, at most
/// `depth` levels deep.
pub fn get_canonical_decomp(cp: u32, direct: &HashMap<u32, Vec<u32>>, depth: usize) -> (r: Vec<u32>)
    ensures
        r@ == full_decomposition(direct@, cp, depth as nat),
    decreases depth, 0nat,
{
    if depth == 0 {
        return vec![cp];
    }
    match direct.get(&cp) {
        Some(d) => decompose_all(d, direct, depth - 1),
        None => vec![cp],
    }
}

fn decompose_all(s: &Vec<u32>, direct: &HashMap<u32, Vec<u32>>, depth: usize) -> (r: Vec<u32>)
    ensures
        r@ == full_decomposition_of(direct@, s@, depth as nat),
    decreases depth, s@.len(),
{
    let mut out: Vec<u32> = Vec::new();
    let mut i: usize = 0;
    while i < s.len()
        invariant
            i <= s.len(),
            out@ == full_decomposition_of(direct@, s@.take(i as int), depth as nat),
        decreases s.len() - i,
    {
        proof {
            assert(s@.take(i + 1).drop_last() =~= s@.take(i as int));
        }
        let part = get_canonical_decomp(s[i], direct, depth);
        append_all(&mut out, &part);
        i = i + 1;
    }
    proof {
        assert(s@.take(s.len() as int) =~= s@);
    }
    out
}

} // verus!
