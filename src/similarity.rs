//! Path similarity, used to break ties between rename candidates.
//!
//! Scores are exact rationals `num / den`. A path is a `/`-separated string;
//! its file name is the text after the last separator and its parent the
//! text before it (the empty string for a path without separator, none for
//! the empty path).

use vstd::prelude::*;
use crate::text::{chars_equal, chars_of, contains_char, push_distinct, sub_chars};

verus! {

/// Paths handled by the similarity arithmetic hold fewer characters than this.
pub const MAX_PATH_CHARS: usize = 0x1000_0000;

/// A similarity score `num / den`, with `den > 0`.
#[derive(Clone, Copy, Debug)]
pub struct Similarity {
    pub num: u64,
    pub den: u64,
}

impl Similarity {
    pub open spec fn ratio(self) -> (int, int) {
        (self.num as int, self.den as int)
    }
}

/// `a > b` as rationals with positive denominators.
pub open spec fn ratio_gt(a: (int, int), b: (int, int)) -> bool {
    a.0 * b.1 > b.0 * a.1
}

/// The ratio `0 / 1`.
pub open spec fn zero_ratio() -> (int, int) {
    (0, 1)
}

/// Index of the last `/` in `p`, or -1.
pub open spec fn last_sep(p: Seq<char>) -> int
    decreases p.len(),
{
    if p.len() == 0 {
        -1
    } else if p.last() == '/' {
        p.len() - 1
    } else {
        last_sep(p.drop_last())
    }
}

pub open spec fn file_name(p: Seq<char>) -> Seq<char> {
    p.subrange(last_sep(p) + 1, p.len() as int)
}

pub open spec fn parent(p: Seq<char>) -> Option<Seq<char>> {
    if p.len() == 0 {
        None
    } else if last_sep(p) < 0 {
        Some(Seq::empty())
    } else {
        Some(p.subrange(0, last_sep(p)))
    }
}

/// ASCII case folding of one character, as a code point.
pub open spec fn ascii_fold(c: char) -> u32 {
    if 65 <= c as u32 <= 90 {
        (c as u32 + 32) as u32
    } else {
        c as u32
    }
}

pub open spec fn eq_ignore_ascii_case(a: Seq<char>, b: Seq<char>) -> bool {
    &&& a.len() == b.len()
    &&& forall|i: int| 0 <= i < a.len() ==> ascii_fold(#[trigger] a[i]) == ascii_fold(b[i])
}

/// Jaccard similarity of the character sets of `a` and `b`: 1 for equal
/// strings, 0 when exactly one is empty.
pub open spec fn jaccard(a: Seq<char>, b: Seq<char>) -> (int, int) {
    if a == b {
        (1, 1)
    } else if a.len() == 0 || b.len() == 0 {
        (0, 1)
    } else {
        (
            a.to_set().intersect(b.to_set()).len() as int,
            a.to_set().union(b.to_set()).len() as int,
        )
    }
}

/// Similarity of two parents; none on either side scores 0.
pub open spec fn dir_similarity(p: Seq<char>, q: Seq<char>) -> (int, int) {
    match (parent(p), parent(q)) {
        (Some(a), Some(b)) => jaccard(a, b),
        _ => zero_ratio(),
    }
}

/// `0.95` when the file names agree up to ASCII case, otherwise
/// `0.7 * (1 - d / m) + 0.3 * dir`, with `d` the Damerau-Levenshtein distance
/// of the file names and `m` the longer name's length.
pub open spec fn path_score(p: Seq<char>, q: Seq<char>) -> (int, int) {
    let n1 = file_name(p);
    let n2 = file_name(q);
    if eq_ignore_ascii_case(n1, n2) {
        (19, 20)
    } else {
        let m: int = if n1.len() >= n2.len() { n1.len() as int } else { n2.len() as int };
        let d = crate::strsim_calls::dl_distance(n1, n2) as int;
        let (i, u) = dir_similarity(p, q);
        (7 * (m - d) * u + 3 * i * m, 10 * m * u)
    }
}

/// Index of the last `/` in `v`, if any.
fn find_last_sep(v: &Vec<char>) -> (r: Option<usize>)
    ensures
        match r {
            Some(i) => i < v@.len() && last_sep(v@) == i as int,
            None => last_sep(v@) == -1,
        },
{
    let mut i: usize = v.len();
    assert(v@.take(i as int) =~= v@);
    while i > 0
        invariant
            i <= v.len(),
            last_sep(v@) == last_sep(v@.take(i as int)),
        decreases i,
    {
        assert(v@.take(i as int).drop_last() =~= v@.take(i - 1));
        if v[i - 1] == '/' {
            return Some(i - 1);
        }
        i = i - 1;
    }
    None
}

/// Whether `a` and `b` are equal up to ASCII case.
fn chars_eq_ignore_ascii_case(a: &Vec<char>, b: &Vec<char>) -> (r: bool)
    ensures
        r == eq_ignore_ascii_case(a@, b@),
{
    if a.len() != b.len() {
        return false;
    }
    let mut i: usize = 0;
    while i < a.len()
        invariant
            i <= a.len() == b.len(),
            forall|k: int| 0 <= k < i ==> ascii_fold(#[trigger] a@[k]) == ascii_fold(b@[k]),
        decreases a.len() - i,
    {
        let x = a[i] as u32;
        let y = b[i] as u32;
        let fx: u32 = if 65 <= x && x <= 90 { x + 32 } else { x };
        let fy: u32 = if 65 <= y && y <= 90 { y + 32 } else { y };
        if fx != fy {
            assert(ascii_fold(a@[i as int]) != ascii_fold(b@[i as int]));
            return false;
        }
        i = i + 1;
    }
    true
}

/// Jaccard similarity of the character sets of two strings given as characters.
fn jaccard_chars(a: &Vec<char>, b: &Vec<char>) -> (r: Similarity)
    ensures
        r.ratio() == jaccard(a@, b@),
        0 < r.den <= a@.len() + b@.len() + 1,
        r.num <= r.den,
{
    if chars_equal(a, b) {
        return Similarity { num: 1, den: 1 };
    }
    if a.len() == 0 || b.len() == 0 {
        return Similarity { num: 0, den: 1 };
    }
    let ghost sa = a@.to_set();
    let ghost sb = b@.to_set();
    let mut union: Vec<char> = Vec::new();
    let mut inter: Vec<char> = Vec::new();
    let mut i: usize = 0;
    while i < a.len()
        invariant
            i <= a.len(),
            sb == b@.to_set(),
            union@.no_duplicates(),
            union@.to_set() == a@.take(i as int).to_set(),
            union@.len() <= i,
            inter@.no_duplicates(),
            inter@.to_set() == a@.take(i as int).to_set().intersect(sb),
        decreases a.len() - i,
    {
        let c = a[i];
        assert(a@.take(i + 1) =~= a@.take(i as int).push(c));
        proof { a@.take(i as int).lemma_push_to_set_commute(c); }
        push_distinct(&mut union, c);
        if contains_char(b, c) {
            push_distinct(&mut inter, c);
            assert(inter@.to_set() =~= a@.take(i + 1).to_set().intersect(sb));
        } else {
            assert(inter@.to_set() =~= a@.take(i + 1).to_set().intersect(sb));
        }
        i = i + 1;
    }
    assert(a@.take(a@.len() as int) =~= a@);
    let mut j: usize = 0;
    while j < b.len()
        invariant
            j <= b.len(),
            sa == a@.to_set(),
            union@.no_duplicates(),
            union@.to_set() == sa.union(b@.take(j as int).to_set()),
            union@.len() <= a.len() + j,
        decreases b.len() - j,
    {
        let c = b[j];
        assert(b@.take(j + 1) =~= b@.take(j as int).push(c));
        proof { b@.take(j as int).lemma_push_to_set_commute(c); }
        push_distinct(&mut union, c);
        assert(union@.to_set() =~= sa.union(b@.take(j + 1).to_set()));
        j = j + 1;
    }
    assert(b@.take(b@.len() as int) =~= b@);
    proof {
        union@.unique_seq_to_set();
        inter@.unique_seq_to_set();
        vstd::seq_lib::seq_to_set_is_finite(a@);
        vstd::seq_lib::seq_to_set_is_finite(b@);
        vstd::set_lib::lemma_len_subset(sa.intersect(sb), sa.union(sb));
        assert(sa.contains(a@[0]));
        assert(sa.union(sb).contains(a@[0]));
        assert(union@.to_set().contains(a@[0]));
    }
    Similarity { num: inter.len() as u64, den: union.len() as u64 }
}

/// The parent of the path `v`, as characters, given where its last separator is.
fn parent_chars(v: &Vec<char>, sep: Option<usize>) -> (r: Option<Vec<char>>)
    requires
        match sep {
            Some(i) => i < v@.len() && last_sep(v@) == i as int,
            None => last_sep(v@) == -1,
        },
    ensures
        match (r, parent(v@)) {
            (Some(x), Some(y)) => x@ == y,
            (None, None) => true,
            _ => false,
        },
{
    if v.len() == 0 {
        None
    } else {
        match sep {
            Some(i) => Some(sub_chars(v, 0, i)),
            None => {
                let e: Vec<char> = Vec::new();
                assert(e@ =~= Seq::<char>::empty());
                Some(e)
            },
        }
    }
}

/// Similarity of two paths given as characters.
fn score_chars(p: &Vec<char>, q: &Vec<char>) -> (r: Similarity)
    requires
        p@.len() < MAX_PATH_CHARS,
        q@.len() < MAX_PATH_CHARS,
    ensures
        r.ratio() == path_score(p@, q@),
        0 < r.den,
        r.num <= r.den,
        r.den < 0x2000_0000_0000_0000,
{
    let sp = find_last_sep(p);
    let sq = find_last_sep(q);
    let name_p = match sp {
        Some(i) => sub_chars(p, i + 1, p.len()),
        None => sub_chars(p, 0, p.len()),
    };
    let name_q = match sq {
        Some(i) => sub_chars(q, i + 1, q.len()),
        None => sub_chars(q, 0, q.len()),
    };
    if chars_eq_ignore_ascii_case(&name_p, &name_q) {
        return Similarity { num: 19, den: 20 };
    }
    let m: usize = if name_p.len() >= name_q.len() { name_p.len() } else { name_q.len() };
    let d = crate::strsim_calls::damerau_levenshtein(&name_p, &name_q);
    let dir = match (parent_chars(p, sp), parent_chars(q, sq)) {
        (Some(a), Some(b)) => jaccard_chars(&a, &b),
        _ => Similarity { num: 0, den: 1 },
    };
    assert(m > 0) by {
        if m == 0 {
            assert(name_p@.len() == 0 && name_q@.len() == 0);
            assert(eq_ignore_ascii_case(name_p@, name_q@));
        }
    }
    let m64 = m as u64;
    let d64 = d as u64;
    assert(d64 <= m64);
    assert(dir.den <= 0x2000_0000);
    assert(m64 * dir.den <= 0x1000_0000 * 0x2000_0000) by (nonlinear_arith)
        requires
            m64 <= 0x1000_0000,
            dir.den <= 0x2000_0000,
    ;
    let md = m64 * dir.den;
    assert((m64 - d64) * dir.den <= md) by (nonlinear_arith)
        requires
            d64 <= m64,
            md == m64 * dir.den,
    ;
    assert(dir.num * m64 <= md) by (nonlinear_arith)
        requires
            dir.num <= dir.den,
            md == m64 * dir.den,
    ;
    let num = 7 * ((m64 - d64) * dir.den) + 3 * (dir.num * m64);
    let den = 10 * md;
    assert(0 < md) by (nonlinear_arith)
        requires
            m64 > 0,
            dir.den > 0,
            md == m64 * dir.den,
    ;
    proof {
        let n1 = file_name(p@);
        let n2 = file_name(q@);
        assert(name_p@ =~= n1);
        assert(name_q@ =~= n2);
        assert(num as int == 7 * (m as int - d as int) * dir.den as int + 3 * dir.num as int * m as int) by (nonlinear_arith)
            requires
                num == 7 * ((m64 - d64) * dir.den) + 3 * (dir.num * m64),
                m64 == m,
                d64 == d,
                d <= m,
        ;
        assert(den as int == 10 * m as int * dir.den as int) by (nonlinear_arith)
            requires
                den == 10 * md,
                md == m64 * dir.den,
                m64 == m,
        ;
    }
    Similarity { num, den }
}

/// Similarity of two paths: `0.95` when their file names are equal up to
/// ASCII case, otherwise `0.7` times the normalised Damerau-Levenshtein
/// similarity of the file names plus `0.3` times the Jaccard similarity of
/// the parents' character sets (0 when a parent is missing).
pub fn path_similarity(path1: &str, path2: &str) -> (r: Similarity)
    requires
        path1@.len() < MAX_PATH_CHARS,
        path2@.len() < MAX_PATH_CHARS,
    ensures
        r.ratio() == path_score(path1@, path2@),
        0 < r.den,
        r.num <= r.den,
{
    let p = chars_of(path1);
    let q = chars_of(path2);
    score_chars(&p, &q)
}

/// Jaccard similarity of the character sets of two strings: 1 for equal
/// strings, 0 when exactly one is empty.
pub fn simple_string_similarity(s1: &str, s2: &str) -> (r: Similarity)
    ensures
        r.ratio() == jaccard(s1@, s2@),
        0 < r.den,
        r.num <= r.den,
{
    let a = chars_of(s1);
    let b = chars_of(s2);
    jaccard_chars(&a, &b)
}

/// Every path score has a positive denominator.
pub proof fn lemma_path_score_den(p: Seq<char>, q: Seq<char>)
    ensures
        path_score(p, q).1 > 0,
{
    let n1 = file_name(p);
    let n2 = file_name(q);
    if !eq_ignore_ascii_case(n1, n2) {
        let m: int = if n1.len() >= n2.len() { n1.len() as int } else { n2.len() as int };
        assert(m > 0);
        let u = dir_similarity(p, q).1;
        match (parent(p), parent(q)) {
            (Some(a), Some(b)) => {
                if a != b && a.len() != 0 && b.len() != 0 {
                    let s = a.to_set().union(b.to_set());
                    vstd::seq_lib::seq_to_set_is_finite(a);
                    vstd::seq_lib::seq_to_set_is_finite(b);
                    assert(a.to_set().contains(a[0]));
                    assert(s.contains(a[0]));
                    assert(s.finite());
                    vstd::set::axiom_set_remove_len(s, a[0]);
                }
            },
            _ => {},
        }
        assert(u > 0);
        assert(10 * m * u > 0) by (nonlinear_arith)
            requires
                m > 0,
                u > 0,
        ;
    }
}

} // verus!
