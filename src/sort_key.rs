//! Sort keys: the level-major projection of collation elements, their
//! lexicographic comparison, and the trim of a shared prefix.
use std::cmp::Ordering;
use vstd::prelude::*;
use vstd::std_specs::hash::group_hash_axioms;

use crate::unicode::all_code_points;
use crate::tables::{is_need_three, is_need_two, need_three, need_two, KeyTables};
use crate::weights::{levels, CollationElement, Weights};

verus! {

broadcast use group_hash_axioms;

/// The nonzero weights at `level` of the elements, in order.
pub open spec fn level_weights(cea: Seq<CollationElement>, level: int) -> Seq<u16>
    decreases cea.len(),
{
    if cea.len() == 0 {
        seq![]
    } else {
        let rest = level_weights(cea.drop_last(), level);
        if cea.last().level(level) != 0 {
            rest.push(cea.last().level(level))
        } else {
            rest
        }
    }
}

/// Levels `0..n` of the elements, each but the first after a zero separator.
pub open spec fn key_levels(cea: Seq<CollationElement>, n: int) -> Seq<u16>
    decreases n,
{
    if n <= 1 {
        level_weights(cea, 0)
    } else {
        key_levels(cea, n - 1).push(0) + level_weights(cea, n - 1)
    }
}

/// The sort key of a sequence of collation elements.
pub open spec fn sort_key_of(cea: Seq<CollationElement>, shifting: bool) -> Seq<u16> {
    key_levels(cea, levels(shifting))
}

/// The sort key of `cea`: for each level, the nonzero weights of that level,
/// with a zero between levels.
pub fn get_sort_key(cea: &Vec<CollationElement>, shifting: bool) -> (r: Vec<u16>)
    ensures
        r@ == sort_key_of(cea@, shifting),
{
    let max_level: usize = if shifting { 4 } else { 3 };
    let mut sort_key: Vec<u16> = Vec::new();
    let mut i: usize = 0;
    while i < max_level
        invariant
            max_level == levels(shifting),
            i <= max_level,
            i == 0 ==> sort_key@ == Seq::<u16>::empty(),
            i > 0 ==> sort_key@ == key_levels(cea@, i as int),
        decreases max_level - i,
    {
        let ghost start = sort_key@;
        if i > 0 {
            sort_key.push(0);
        }
        let ghost base = sort_key@;
        let mut j: usize = 0;
        while j < cea.len()
            invariant
                i < max_level <= 4,
                j <= cea.len(),
                sort_key@ == base + level_weights(cea@.take(j as int), i as int),
            decreases cea.len() - j,
        {
            let w = cea[j].weight(i);
            proof {
                assert(cea@.take(j + 1).drop_last() =~= cea@.take(j as int));
            }
            if w != 0 {
                sort_key.push(w);
            }
            j = j + 1;
            proof {
                assert(sort_key@ =~= base + level_weights(cea@.take(j as int), i as int));
            }
        }
        proof {
            assert(cea@.take(cea.len() as int) =~= cea@);
            if i == 0 {
                assert(sort_key@ =~= key_levels(cea@, 1));
            } else {
                assert(sort_key@ =~= key_levels(cea@, i + 1));
            }
        }
        i = i + 1;
    }
    sort_key
}

/// Lexicographic order of integer sequences; a proper prefix comes first.
pub open spec fn lex_cmp(a: Seq<int>, b: Seq<int>) -> Ordering
    decreases a.len(),
{
    if a.len() == 0 && b.len() == 0 {
        Ordering::Equal
    } else if a.len() == 0 {
        Ordering::Less
    } else if b.len() == 0 {
        Ordering::Greater
    } else if a[0] < b[0] {
        Ordering::Less
    } else if a[0] > b[0] {
        Ordering::Greater
    } else {
        lex_cmp(a.drop_first(), b.drop_first())
    }
}

pub open spec fn ints16(s: Seq<u16>) -> Seq<int> {
    s.map_values(|x: u16| x as int)
}

pub open spec fn ints32(s: Seq<u32>) -> Seq<int> {
    s.map_values(|x: u32| x as int)
}

/// Compares two sort keys lexicographically.
pub fn compare_keys(a: &Vec<u16>, b: &Vec<u16>) -> (r: Ordering)
    ensures
        r == lex_cmp(ints16(a@), ints16(b@)),
{
    let ghost sa = ints16(a@);
    let ghost sb = ints16(b@);
    assert(sa.skip(0) =~= sa && sb.skip(0) =~= sb);
    let mut i: usize = 0;
    while i < a.len() && i < b.len()
        invariant
            i <= a.len(),
            i <= b.len(),
            sa == ints16(a@),
            sb == ints16(b@),
            lex_cmp(sa, sb) == lex_cmp(sa.skip(i as int), sb.skip(i as int)),
        decreases a.len() - i,
    {
        if a[i] < b[i] {
            return Ordering::Less;
        }
        if a[i] > b[i] {
            return Ordering::Greater;
        }
        proof {
            assert(sa.skip(i as int).drop_first() =~= sa.skip(i + 1));
            assert(sb.skip(i as int).drop_first() =~= sb.skip(i + 1));
        }
        i = i + 1;
    }
    if a.len() < b.len() {
        Ordering::Less
    } else if a.len() > b.len() {
        Ordering::Greater
    } else {
        Ordering::Equal
    }
}

/// Compares two code point sequences lexicographically.
pub fn compare_code_points(a: &Vec<u32>, b: &Vec<u32>) -> (r: Ordering)
    ensures
        r == lex_cmp(ints32(a@), ints32(b@)),
{
    let ghost sa = ints32(a@);
    let ghost sb = ints32(b@);
    assert(sa.skip(0) =~= sa && sb.skip(0) =~= sb);
    let mut i: usize = 0;
    while i < a.len() && i < b.len()
        invariant
            i <= a.len(),
            i <= b.len(),
            sa == ints32(a@),
            sb == ints32(b@),
            lex_cmp(sa, sb) == lex_cmp(sa.skip(i as int), sb.skip(i as int)),
        decreases a.len() - i,
    {
        if a[i] < b[i] {
            return Ordering::Less;
        }
        if a[i] > b[i] {
            return Ordering::Greater;
        }
        proof {
            assert(sa.skip(i as int).drop_first() =~= sa.skip(i + 1));
            assert(sb.skip(i as int).drop_first() =~= sb.skip(i + 1));
        }
        i = i + 1;
    }
    if a.len() < b.len() {
        Ordering::Less
    } else if a.len() > b.len() {
        Ordering::Greater
    } else {
        Ordering::Equal
    }
}

/// Whether two code point sequences are equal.
pub fn same_code_points(a: &Vec<u32>, b: &Vec<u32>) -> (r: bool)
    ensures
        r == (a@ == b@),
{
    if a.len() != b.len() {
        return false;
    }
    let mut i: usize = 0;
    while i < a.len()
        invariant
            i <= a.len() == b.len(),
            a@.take(i as int) == b@.take(i as int),
        decreases a.len() - i,
    {
        if a[i] != b[i] {
            return false;
        }
        i = i + 1;
        assert(a@.take(i as int) =~= a@.take(i - 1).push(a@[i - 1]));
        assert(b@.take(i as int) =~= b@.take(i - 1).push(b@[i - 1]));
    }
    assert(a@ =~= a@.take(a.len() as int));
    assert(b@ =~= b@.take(b.len() as int));
    true
}

/// May begin a contraction: such a code point never stays in a trimmed prefix.
pub open spec fn starts_contraction(c: u32) -> bool {
    need_three(c) || need_two(c)
}

/// The length of the longest common prefix of `a` and `b` that holds no
/// code point which may begin a contraction.
pub open spec fn common_prefix(a: Seq<u32>, b: Seq<u32>) -> int
    decreases a.len(),
{
    if a.len() == 0 || b.len() == 0 || a[0] != b[0] || starts_contraction(a[0]) {
        0
    } else {
        1 + common_prefix(a.drop_first(), b.drop_first())
    }
}

pub proof fn lemma_common_prefix_bounds(a: Seq<u32>, b: Seq<u32>)
    ensures
        0 <= common_prefix(a, b) <= a.len(),
        common_prefix(a, b) <= b.len(),
        forall|i: int| 0 <= i < common_prefix(a, b) ==> a[i] == b[i] && !starts_contraction(a[i]),
    decreases a.len(),
{
    if !(a.len() == 0 || b.len() == 0 || a[0] != b[0] || starts_contraction(a[0])) {
        lemma_common_prefix_bounds(a.drop_first(), b.drop_first());
        assert forall|i: int| 0 <= i < common_prefix(a, b) implies a[i] == b[i] && !starts_contraction(a[i]) by {
            if i > 0 {
                assert(a.drop_first()[i - 1] == b.drop_first()[i - 1]);
            }
        }
    }
}

/// The length of the common prefix that may be trimmed.
pub fn find_prefix(a: &Vec<u32>, b: &Vec<u32>) -> (r: usize)
    ensures
        r == common_prefix(a@, b@),
{
    let mut i: usize = 0;
    assert(a@.skip(0) =~= a@ && b@.skip(0) =~= b@);
    while i < a.len() && i < b.len() && a[i] == b[i] && !is_need_three(a[i]) && !is_need_two(a[i])
        invariant
            i <= a.len(),
            i <= b.len(),
            common_prefix(a@, b@) == i + common_prefix(a@.skip(i as int), b@.skip(i as int)),
        decreases a.len() - i,
    {
        proof {
            assert(a@.skip(i as int).drop_first() =~= a@.skip(i + 1));
            assert(b@.skip(i as int).drop_first() =~= b@.skip(i + 1));
        }
        i = i + 1;
    }
    i
}

pub open spec fn safe_record(w: Weights) -> bool {
    !w.variable && w.primary != 0
}

/// Dropping a prefix that ends in `c` keeps the order: `c` has a row, and that
/// row has only non-variable records with a nonzero primary weight.
pub open spec fn safe_prefix_end(t: KeyTables, c: u32) -> bool {
    t.singles@.contains_key(c) && forall|k: int|
        0 <= k < t.singles@[c]@.len() ==> safe_record(#[trigger] t.singles@[c]@[k])
}

/// The two sequences after the prefix trim.
pub open spec fn trimmed(t: KeyTables, a: Seq<u32>, b: Seq<u32>) -> (Seq<u32>, Seq<u32>) {
    let p = common_prefix(a, b);
    if p > 0 && safe_prefix_end(t, a[p - 1]) {
        (a.skip(p), b.skip(p))
    } else {
        (a, b)
    }
}

/// Trimming keeps sequences of code points.
pub proof fn lemma_trimmed_code_points(t: KeyTables, a: Seq<u32>, b: Seq<u32>)
    requires
        all_code_points(a),
        all_code_points(b),
    ensures
        all_code_points(trimmed(t, a, b).0),
        all_code_points(trimmed(t, a, b).1),
{
    lemma_common_prefix_bounds(a, b);
    let p = common_prefix(a, b);
    assert forall|i: int| 0 <= i < a.skip(p).len() implies a.skip(p)[i] <= 0x10FFFF by {
        assert(a.skip(p)[i] == a[i + p]);
    }
    assert forall|i: int| 0 <= i < b.skip(p).len() implies b.skip(p)[i] <= 0x10FFFF by {
        assert(b.skip(p)[i] == b[i + p]);
    }
}

fn drop_front(v: &mut Vec<u32>, n: usize)
    requires
        n <= old(v).len(),
    ensures
        final(v)@ == old(v)@.skip(n as int),
{
    let mut rest: Vec<u32> = Vec::new();
    let mut i: usize = n;
    while i < v.len()
        invariant
            n <= i <= v.len(),
            rest@ == v@.subrange(n as int, i as int),
        decreases v.len() - i,
    {
        rest.push(v[i]);
        i = i + 1;
        assert(rest@ =~= v@.subrange(n as int, i as int));
    }
    *v = rest;
}

/// Drops the shared prefix of `a` and `b` where that cannot change their order.
pub fn trim_prefix(a: &mut Vec<u32>, b: &mut Vec<u32>, keys: &KeyTables)
    ensures
        (final(a)@, final(b)@) == trimmed(*keys, old(a)@, old(b)@),
{
    let prefix_len = find_prefix(a, b);
    proof {
        lemma_common_prefix_bounds(a@, b@);
    }
    if prefix_len > 0 {
        match keys.singles.get(&a[prefix_len - 1]) {
            Some(row) => {
                let mut k: usize = 0;
                while k < row.len()
                    invariant
                        k <= row.len(),
                        0 < prefix_len <= a@.len(),
                        prefix_len == common_prefix(a@, b@),
                        a@ == old(a)@,
                        b@ == old(b)@,
                        keys.single(a@[prefix_len - 1]) == Some(row@),
                        forall|m: int| 0 <= m < k ==> safe_record(#[trigger] row@[m]),
                    decreases row.len() - k,
                {
                    if row[k].variable || row[k].primary == 0 {
                        proof {
                            assert(!safe_record(row@[k as int]));
                            assert(!safe_prefix_end(*keys, a@[prefix_len - 1]));
                        }
                        return;
                    }
                    k = k + 1;
                }
                assert(safe_prefix_end(*keys, a@[prefix_len - 1]));
            },
            None => {
                return;
            },
        }
        drop_front(a, prefix_len);
        drop_front(b, prefix_len);
    }
}

/// The number of zero values in a sequence.
pub open spec fn zero_count(s: Seq<u16>) -> nat
    decreases s.len(),
{
    if s.len() == 0 {
        0
    } else {
        zero_count(s.drop_last()) + if s.last() == 0 { 1nat } else { 0nat }
    }
}

proof fn lemma_zero_count_concat(a: Seq<u16>, b: Seq<u16>)
    ensures
        zero_count(a + b) == zero_count(a) + zero_count(b),
    decreases b.len(),
{
    if b.len() == 0 {
        assert(a + b =~= a);
    } else {
        assert((a + b).drop_last() =~= a + b.drop_last());
        lemma_zero_count_concat(a, b.drop_last());
    }
}

proof fn lemma_level_weights_nonzero(cea: Seq<CollationElement>, level: int)
    ensures
        zero_count(level_weights(cea, level)) == 0,
    decreases cea.len(),
{
    if cea.len() > 0 {
        lemma_level_weights_nonzero(cea.drop_last(), level);
        let rest = level_weights(cea.drop_last(), level);
        if cea.last().level(level) != 0 {
            assert(rest.push(cea.last().level(level)).drop_last() =~= rest);
        }
    }
}

proof fn lemma_key_levels_zeros(cea: Seq<CollationElement>, n: int)
    requires
        n >= 1,
    ensures
        zero_count(key_levels(cea, n)) == n - 1,
    decreases n,
{
    lemma_level_weights_nonzero(cea, n - 1);
    if n > 1 {
        lemma_key_levels_zeros(cea, n - 1);
        let prev = key_levels(cea, n - 1);
        assert(prev.push(0).drop_last() =~= prev);
        lemma_zero_count_concat(prev.push(0), level_weights(cea, n - 1));
    }
}

/// A sort key holds exactly one zero between each two levels and no other:
/// two zeros without shifting, three with it.
pub proof fn lemma_level_separators(cea: Seq<CollationElement>, shifting: bool)
    ensures
        zero_count(sort_key_of(cea, shifting)) == levels(shifting) - 1,
        forall|level: int| 0 <= level < 4 ==> zero_count(#[trigger] level_weights(cea, level)) == 0,
{
    lemma_key_levels_zeros(cea, levels(shifting));
    assert forall|level: int| 0 <= level < 4 implies zero_count(#[trigger] level_weights(cea, level)) == 0 by {
        lemma_level_weights_nonzero(cea, level);
    }
}

/// Lexicographic order is antisymmetric.
pub proof fn lemma_lex_cmp_antisymmetric(a: Seq<int>, b: Seq<int>)
    ensures
        lex_cmp(a, b) == reverse(lex_cmp(b, a)),
    decreases a.len(),
{
    if a.len() > 0 && b.len() > 0 && a[0] == b[0] {
        lemma_lex_cmp_antisymmetric(a.drop_first(), b.drop_first());
    }
}

/// Lexicographic order of a sequence with itself is `Equal`.
pub proof fn lemma_lex_cmp_reflexive(a: Seq<int>)
    ensures
        lex_cmp(a, a) == Ordering::Equal,
    decreases a.len(),
{
    if a.len() > 0 {
        lemma_lex_cmp_reflexive(a.drop_first());
    }
}

/// `Less` and `Greater` swapped.
pub open spec fn reverse(o: Ordering) -> Ordering {
    match o {
        Ordering::Less => Ordering::Greater,
        Ordering::Equal => Ordering::Equal,
        Ordering::Greater => Ordering::Less,
    }
}

/// The trim treats both sides alike.
pub proof fn lemma_trimmed_symmetric(t: KeyTables, a: Seq<u32>, b: Seq<u32>)
    ensures
        trimmed(t, b, a) == (trimmed(t, a, b).1, trimmed(t, a, b).0),
    decreases a.len(),
{
    lemma_common_prefix_symmetric(a, b);
    lemma_common_prefix_bounds(a, b);
}

proof fn lemma_common_prefix_symmetric(a: Seq<u32>, b: Seq<u32>)
    ensures
        common_prefix(a, b) == common_prefix(b, a),
    decreases a.len(),
{
    if !(a.len() == 0 || b.len() == 0 || a[0] != b[0] || starts_contraction(a[0])) {
        lemma_common_prefix_symmetric(a.drop_first(), b.drop_first());
    }
}

} // verus!
