//! The two text formats around the tables: lines of hex code points, as in
//! the conformance test files, and lines of the weight table source
//! (`allkeys.txt`): `0041 ; [.1FA2.0020.0008] # comment`.
use vstd::prelude::*;

use crate::weights::Weights;

verus! {

/// The value of a hexadecimal digit.
pub open spec fn hex_digit(c: char) -> Option<u32> {
    if '0' <= c <= '9' {
        Some((c as u32 - '0' as u32) as u32)
    } else if 'A' <= c <= 'F' {
        Some((c as u32 - 'A' as u32 + 10) as u32)
    } else if 'a' <= c <= 'f' {
        Some((c as u32 - 'a' as u32 + 10) as u32)
    } else {
        None
    }
}

fn hex_digit_exec(c: char) -> (r: Option<u32>)
    ensures
        r == hex_digit(c),
{
    if '0' <= c && c <= '9' {
        Some(c as u32 - '0' as u32)
    } else if 'A' <= c && c <= 'F' {
        Some(c as u32 - 'A' as u32 + 10)
    } else if 'a' <= c && c <= 'f' {
        Some(c as u32 - 'a' as u32 + 10)
    } else {
        None
    }
}

/// Scans space-separated hexadecimal fields: the values of the finished
/// fields and of the field being read, or `None` at a character that is
/// neither a digit nor a space, or at a value above `u32::MAX`.
pub open spec fn scan_fields(s: Seq<char>) -> Option<(Seq<u32>, Option<u32>)>
    decreases s.len(),
{
    if s.len() == 0 {
        Some((seq![], None))
    } else {
        match scan_fields(s.drop_last()) {
            None => None,
            Some((done, cur)) => {
                let c = s.last();
                if c == ' ' {
                    match cur {
                        Some(v) => Some((done.push(v), None)),
                        None => Some((done, None)),
                    }
                } else {
                    match hex_digit(c) {
                        None => None,
                        Some(d) => {
                            let v = (match cur {
                                Some(v) => v as int,
                                None => 0,
                            }) * 16 + d;
                            if v > u32::MAX {
                                None
                            } else {
                                Some((done, Some(v as u32)))
                            }
                        },
                    }
                }
            },
        }
    }
}

/// The values of the space-separated hexadecimal fields of `s`.
pub open spec fn hex_fields(s: Seq<char>) -> Option<Seq<u32>> {
    match scan_fields(s) {
        None => None,
        Some((done, Some(v))) => Some(done.push(v)),
        Some((done, None)) => Some(done),
    }
}

/// The characters of a string.
pub fn chars_of(s: &str) -> (r: Vec<char>)
    ensures
        r@ == s@,
{
    let mut r: Vec<char> = Vec::new();
    for c in it: s.chars()
        invariant
            it.seq() == s@,
            r@ == s@.take(it.index() as int),
    {
        r.push(c);
        assert(r@ =~= s@.take(it.index() + 1));
    }
    assert(s@.take(s@.len() as int) =~= s@);
    r
}

/// Reads the hexadecimal fields of `s[lo..hi]`.
fn hex_fields_of(s: &Vec<char>, lo: usize, hi: usize) -> (r: Option<Vec<u32>>)
    requires
        lo <= hi <= s.len(),
    ensures
        match r {
            Some(v) => hex_fields(s@.subrange(lo as int, hi as int)) == Some(v@),
            None => hex_fields(s@.subrange(lo as int, hi as int)) is None,
        },
{
    let mut done: Vec<u32> = Vec::new();
    let mut cur: Option<u32> = None;
    let mut i: usize = lo;
    while i < hi
        invariant
            lo <= i <= hi <= s.len(),
            scan_fields(s@.subrange(lo as int, i as int)) == Some((done@, cur)),
        decreases hi - i,
    {
        let c = s[i];
        proof {
            assert(s@.subrange(lo as int, i + 1).drop_last() =~= s@.subrange(lo as int, i as int));
        }
        if c == ' ' {
            match cur {
                Some(v) => {
                    done.push(v);
                },
                None => {},
            }
            cur = None;
        } else {
            match hex_digit_exec(c) {
                None => {
                    proof {
                        assert(s@.subrange(lo as int, hi as int).take(i - lo + 1) =~= s@.subrange(
                            lo as int,
                            i + 1,
                        ));
                        lemma_scan_stays_none(s@.subrange(lo as int, hi as int), i - lo + 1);
                    }
                    return None;
                },
                Some(d) => {
                    let base: u32 = match cur {
                        Some(v) => v,
                        None => 0,
                    };
                    if base > 0x0FFF_FFFF {
                        proof {
                            assert(base as int * 16 >= 0x1_0000_0000);
                            assert(s@.subrange(lo as int, hi as int).take(i - lo + 1) =~= s@.subrange(
                                lo as int,
                                i + 1,
                            ));
                            lemma_scan_stays_none(s@.subrange(lo as int, hi as int), i - lo + 1);
                        }
                        return None;
                    }
                    cur = Some(base * 16 + d);
                },
            }
        }
        i = i + 1;
    }
    match cur {
        Some(v) => {
            done.push(v);
        },
        None => {},
    }
    Some(done)
}

proof fn lemma_scan_stays_none(s: Seq<char>, k: int)
    requires
        0 <= k <= s.len(),
        scan_fields(s.take(k)) is None,
    ensures
        scan_fields(s) is None,
    decreases s.len() - k,
{
    if k < s.len() {
        assert(s.take(k + 1).drop_last() =~= s.take(k));
        lemma_scan_stays_none(s, k + 1);
    } else {
        assert(s.take(k) =~= s);
    }
}

/// The values of the space-separated hexadecimal fields of `s`, or `None`
/// where it holds another character or a value above `u32::MAX`.
pub fn parse_hex_fields(s: &str) -> (r: Option<Vec<u32>>)
    ensures
        match r {
            Some(v) => hex_fields(s@) == Some(v@),
            None => hex_fields(s@) is None,
        },
{
    let cs = chars_of(s);
    proof {
        assert(cs@.subrange(0, cs@.len() as int) =~= cs@);
    }
    hex_fields_of(&cs, 0, cs.len())
}

/// The decomposition field of a character database line: the code points of
/// a canonical decomposition, or `None` for a compatibility decomposition
/// (tagged `<...>`), an empty field or a malformed one.
pub open spec fn canonical_field(s: Seq<char>) -> Option<Seq<u32>> {
    if exists|i: int| 0 <= i < s.len() && s[i] == '<' {
        None
    } else {
        match hex_fields(s) {
            Some(v) => if v.len() > 0 {
                Some(v)
            } else {
                None
            },
            None => None,
        }
    }
}

pub fn parse_canonical_field(field: &str) -> (r: Option<Vec<u32>>)
    ensures
        match r {
            Some(v) => canonical_field(field@) == Some(v@),
            None => canonical_field(field@) is None,
        },
{
    let cs = chars_of(field);
    let mut i: usize = 0;
    while i < cs.len()
        invariant
            i <= cs.len(),
            cs@ == field@,
            forall|j: int| 0 <= j < i ==> cs@[j] != '<',
        decreases cs.len() - i,
    {
        if cs[i] == '<' {
            return None;
        }
        i = i + 1;
    }
    proof {
        assert(cs@.subrange(0, cs@.len() as int) =~= cs@);
    }
    match hex_fields_of(&cs, 0, cs.len()) {
        Some(v) => if v.len() > 0 {
            Some(v)
        } else {
            None
        },
        None => None,
    }
}

/// A line of a conformance test file that holds a test string: neither
/// empty nor a comment.
pub open spec fn is_test_line(line: Seq<char>) -> bool {
    line.len() > 0 && line[0] != '#'
}

/// The code points of a test line, or `None` for a comment, an empty line
/// or a line that is not space-separated hexadecimal values.
pub fn parse_test_line(line: &str) -> (r: Option<Vec<u32>>)
    ensures
        match r {
            Some(v) => is_test_line(line@) && hex_fields(line@) == Some(v@),
            None => !is_test_line(line@) || hex_fields(line@) is None,
        },
{
    let s = chars_of(line);
    if s.len() == 0 || s[0] == '#' {
        return None;
    }
    proof {
        assert(s@.subrange(0, s@.len() as int) =~= s@);
    }
    hex_fields_of(&s, 0, s.len())
}

/// The index of the first `c` in `s`, or the length of `s` where there is none.
pub open spec fn first_index(s: Seq<char>, c: char) -> int
    decreases s.len(),
{
    if s.len() == 0 {
        0
    } else if s[0] == c {
        0
    } else {
        1 + first_index(s.drop_first(), c)
    }
}

proof fn lemma_first_index_bounds(s: Seq<char>, c: char)
    ensures
        0 <= first_index(s, c) <= s.len(),
        first_index(s, c) < s.len() ==> s[first_index(s, c)] == c,
    decreases s.len(),
{
    if s.len() > 0 && s[0] != c {
        lemma_first_index_bounds(s.drop_first(), c);
    }
}

fn find_char(s: &Vec<char>, from: usize, c: char) -> (r: usize)
    requires
        from <= s.len(),
    ensures
        r == from + first_index(s@.skip(from as int), c),
        from <= r <= s.len(),
{
    let mut i: usize = from;
    proof {
        lemma_first_index_bounds(s@.skip(from as int), c);
    }
    while i < s.len() && s[i] != c
        invariant
            from <= i <= s.len(),
            from + first_index(s@.skip(from as int), c) == i + first_index(s@.skip(i as int), c),
        decreases s.len() - i,
    {
        proof {
            assert(s@.skip(i as int).drop_first() =~= s@.skip(i + 1));
        }
        i = i + 1;
    }
    i
}

/// The value of four hexadecimal digits.
#[verifier::opaque]
pub open spec fn hex4(x: Seq<char>) -> Option<u16> {
    match (hex_digit(x[0]), hex_digit(x[1]), hex_digit(x[2]), hex_digit(x[3])) {
        (Some(a), Some(b), Some(c), Some(d)) => Some((a * 4096 + b * 256 + c * 16 + d) as u16),
        _ => None,
    }
}

/// One weight record in its fifteen characters: `*` for a variable record
/// or `.` for another, then three groups of four hexadecimal digits
/// separated by `.`, as in `*0209.0020.0002`.
#[verifier::opaque]
pub open spec fn record(x: Seq<char>) -> Option<Weights> {
    if x.len() == 15 && (x[0] == '*' || x[0] == '.') && x[5] == '.' && x[10] == '.' {
        match (hex4(x.subrange(1, 5)), hex4(x.subrange(6, 10)), hex4(x.subrange(11, 15))) {
            (Some(p), Some(s), Some(t)) => Some(
                Weights { variable: x[0] == '*', primary: p, secondary: s, tertiary: t },
            ),
            _ => None,
        }
    } else {
        None
    }
}

/// A run of bracketed weight records, spaces allowed around them.
pub open spec fn records(r: Seq<char>) -> Option<Seq<Weights>>
    decreases r.len(),
{
    if r.len() == 0 {
        Some(seq![])
    } else if r[0] == ' ' {
        records(r.drop_first())
    } else if r.len() >= 17 && r[0] == '[' && r[16] == ']' && record(r.subrange(1, 16)) is Some {
        match records(r.skip(17)) {
            Some(rest) => Some(seq![record(r.subrange(1, 16))->0] + rest),
            None => None,
        }
    } else {
        None
    }
}

/// A line of the weight table source that may hold an entry: neither empty,
/// nor a directive (`@`), nor a comment.
pub open spec fn is_entry_line(line: Seq<char>) -> bool {
    line.len() > 0 && line[0] != '@' && line[0] != '#'
}

/// The entry of a weight table source line: the code points before `;` and
/// the weight records between `;` and `#`.
pub open spec fn table_entry(line: Seq<char>) -> Option<(Seq<u32>, Seq<Weights>)> {
    let p = first_index(line, ';');
    let rest = line.skip(p + 1);
    let h = first_index(rest, '#');
    if !is_entry_line(line) || p >= line.len() {
        None
    } else {
        match (hex_fields(line.take(p)), records(rest.take(h))) {
            (Some(key), Some(ws)) => if key.len() > 0 {
                Some((key, ws))
            } else {
                None
            },
            _ => None,
        }
    }
}

fn hex4_at(s: &Vec<char>, at: usize) -> (r: Option<u16>)
    requires
        at + 4 <= s.len(),
    ensures
        r == hex4(s@.subrange(at as int, at + 4)),
{
    reveal(hex4);
    let a = hex_digit_exec(s[at]);
    let b = hex_digit_exec(s[at + 1]);
    let c = hex_digit_exec(s[at + 2]);
    let d = hex_digit_exec(s[at + 3]);
    match (a, b, c, d) {
        (Some(a), Some(b), Some(c), Some(d)) => Some((a * 4096 + b * 256 + c * 16 + d) as u16),
        _ => None,
    }
}

fn record_at(s: &Vec<char>, at: usize) -> (r: Option<Weights>)
    requires
        at + 15 <= s.len(),
    ensures
        r == record(s@.subrange(at as int, at + 15)),
{
    reveal(record);
    let ghost x = s@.subrange(at as int, at + 15);
    assert(x.len() == 15 && x[0] == s@[at as int] && x[5] == s@[at + 5] && x[10] == s@[at + 10]);
    if (s[at] == '*' || s[at] == '.') && s[at + 5] == '.' && s[at + 10] == '.' {
        let p = hex4_at(s, at + 1);
        let q = hex4_at(s, at + 6);
        let t = hex4_at(s, at + 11);
        proof {
            assert(x.subrange(1, 5) =~= s@.subrange(at + 1, at + 5));
            assert(x.subrange(6, 10) =~= s@.subrange(at + 6, at + 10));
            assert(x.subrange(11, 15) =~= s@.subrange(at + 11, at + 15));
        }
        match (p, q, t) {
            (Some(p), Some(q), Some(t)) => Some(
                Weights { variable: s[at] == '*', primary: p, secondary: q, tertiary: t },
            ),
            _ => None,
        }
    } else {
        None
    }
}

/// `acc` followed by what `rest` reads, if it reads.
pub open spec fn after(acc: Seq<Weights>, rest: Option<Seq<Weights>>) -> Option<Seq<Weights>> {
    match rest {
        Some(r) => Some(acc + r),
        None => None,
    }
}

proof fn lemma_records_step(r: Seq<char>, acc: Seq<Weights>)
    requires
        r.len() >= 17,
        r[0] == '[',
        r[16] == ']',
        record(r.subrange(1, 16)) is Some,
    ensures
        after(acc, records(r)) == after(acc.push(record(r.subrange(1, 16))->0), records(r.skip(17))),
{
    let w = record(r.subrange(1, 16))->0;
    match records(r.skip(17)) {
        Some(rest) => {
            assert(acc + (seq![w] + rest) =~= acc.push(w) + rest);
        },
        None => {},
    }
}

/// Reads the weight records of `s[lo..hi]`.
fn records_of(s: &Vec<char>, lo: usize, hi: usize) -> (r: Option<Vec<Weights>>)
    requires
        lo <= hi <= s.len(),
    ensures
        match r {
            Some(v) => records(s@.subrange(lo as int, hi as int)) == Some(v@),
            None => records(s@.subrange(lo as int, hi as int)) is None,
        },
{
    let ghost whole = s@.subrange(lo as int, hi as int);
    let mut acc: Vec<Weights> = Vec::new();
    let mut i: usize = lo;
    assert(after(acc@, records(whole)) == records(whole)) by {
        match records(whole) {
            Some(x) => {
                assert(acc@ + x =~= x);
            },
            None => {},
        }
    }
    while i < hi
        invariant
            lo <= i <= hi <= s.len(),
            whole == s@.subrange(lo as int, hi as int),
            records(whole) == after(acc@, records(s@.subrange(i as int, hi as int))),
        decreases hi - i,
    {
        let ghost r = s@.subrange(i as int, hi as int);
        assert(r.len() > 0 && r[0] == s@[i as int]);
        if s[i] == ' ' {
            assert(r.drop_first() =~= s@.subrange(i + 1, hi as int));
            i = i + 1;
        } else if hi - i >= 17 && s[i] == '[' && s[i + 16] == ']' {
            assert(r[16] == s@[i + 16]);
            let w = record_at(s, i + 1);
            assert(r.subrange(1, 16) =~= s@.subrange(i + 1, i + 16));
            match w {
                Some(w) => {
                    assert(r.skip(17) =~= s@.subrange(i + 17, hi as int));
                    proof {
                        lemma_records_step(r, acc@);
                    }
                    acc.push(w);
                    i = i + 17;
                },
                None => {
                    return None;
                },
            }
        } else {
            return None;
        }
    }
    proof {
        assert(s@.subrange(i as int, hi as int) =~= Seq::<char>::empty());
        assert(acc@ + Seq::<Weights>::empty() =~= acc@);
    }
    Some(acc)
}

/// The entry of a line of the weight table source, or `None` for a line
/// that holds none or is malformed.
pub fn parse_table_line(line: &str) -> (r: Option<(Vec<u32>, Vec<Weights>)>)
    ensures
        match r {
            Some((key, ws)) => table_entry(line@) == Some((key@, ws@)),
            None => table_entry(line@) is None,
        },
{
    let s = chars_of(line);
    if s.len() == 0 || s[0] == '@' || s[0] == '#' {
        return None;
    }
    let p = find_char(&s, 0, ';');
    proof {
        assert(s@.skip(0) =~= s@);
    }
    if p >= s.len() {
        return None;
    }
    let h = find_char(&s, p + 1, '#');
    proof {
        lemma_first_index_bounds(s@.skip(p + 1), '#');
        assert(s@.take(p as int) =~= s@.subrange(0, p as int));
        assert(s@.skip(p + 1).take(h - (p + 1)) =~= s@.subrange(p + 1, h as int));
    }
    let key = match hex_fields_of(&s, 0, p) {
        Some(k) => k,
        None => {
            return None;
        },
    };
    let ws = match records_of(&s, p + 1, h) {
        Some(w) => w,
        None => {
            return None;
        },
    };
    if key.len() == 0 {
        return None;
    }
    Some((key, ws))
}

} // verus!
