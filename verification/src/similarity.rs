//! Similarity scoring between label names.
//!
//! Two names are compared case-insensitively.  Equal names score `1`; other
//! pairs score `1 - d / m`, where `d` is the Levenshtein distance between
//! the lowercased names, counted over Unicode code points with unit costs,
//! and `m` is the length of the longer lowercased name.  Scores are kept as
//! exact rationals ([`Similarity`]), so the matching threshold of `7/10` is
//! strict: a score of exactly `7/10` does not pass it.

use vstd::prelude::*;

verus! {

/// Numerator of the similarity threshold: a candidate matches only when its
/// score is strictly greater than `SIMILARITY_THRESHOLD_NUM /
/// SIMILARITY_THRESHOLD_DEN`.
pub const SIMILARITY_THRESHOLD_NUM: usize = 7;

/// Denominator of the similarity threshold.
pub const SIMILARITY_THRESHOLD_DEN: usize = 10;

/// The sequence of characters that `str::to_lowercase` yields for the given
/// characters.  The mapping is a fixed function of its input, so it can be
/// named without being written out.
pub uninterp spec fn lower_of(s: Seq<char>) -> Seq<char>;

/// Relies on `str::to_lowercase`: the result is the Unicode lowercase
/// equivalent of the input, a function of the input characters alone, named
/// here by [`lower_of`].
#[verifier::external_body]
fn lower_str(s: &str) -> (r: String)
    ensures
        r@ == lower_of(s@),
{
    s.to_lowercase()
}

/// Relies on `str::chars`: the characters of the string, in order.  The
/// length bound holds because the returned `Vec<char>` spends four bytes per
/// element inside a single Rust allocation, which is at most `isize::MAX`
/// bytes.
#[verifier::external_body]
fn chars_of(s: &str) -> (r: Vec<char>)
    ensures
        r@ == s@,
        r@.len() < usize::MAX,
{
    s.chars().collect()
}

/// The smallest of three integers.
pub open spec fn min3(a: int, b: int, c: int) -> int {
    if a <= b && a <= c {
        a
    } else if b <= c {
        b
    } else {
        c
    }
}

/// The larger of two integers.
pub open spec fn max_int(a: int, b: int) -> int {
    if a >= b {
        a
    } else {
        b
    }
}

/// Levenshtein edit distance between two character sequences: the least
/// number of single-character insertions, deletions and substitutions that
/// turns one into the other.
pub open spec fn lev(a: Seq<char>, b: Seq<char>) -> int
    decreases a.len() + b.len(),
{
    if a.len() == 0 {
        b.len() as int
    } else if b.len() == 0 {
        a.len() as int
    } else {
        let cost: int = if a.last() == b.last() {
            0
        } else {
            1
        };
        min3(
            lev(a.drop_last(), b) + 1,
            lev(a, b.drop_last()) + 1,
            lev(a.drop_last(), b.drop_last()) + cost,
        )
    }
}

/// The edit distance is non-negative and never larger than the longer
/// input: substituting along the shorter input and inserting or deleting
/// the rest always suffices.
pub proof fn lemma_lev_bounds(a: Seq<char>, b: Seq<char>)
    ensures
        0 <= lev(a, b),
        lev(a, b) <= max_int(a.len() as int, b.len() as int),
    decreases a.len() + b.len(),
{
    if a.len() != 0 && b.len() != 0 {
        lemma_lev_bounds(a.drop_last(), b);
        lemma_lev_bounds(a, b.drop_last());
        lemma_lev_bounds(a.drop_last(), b.drop_last());
    }
}

/// Edit distance over character vectors, by the classic dynamic program
/// over prefix pairs.
fn levenshtein_chars(a: &Vec<char>, b: &Vec<char>) -> (d: usize)
    requires
        a@.len() < usize::MAX,
        b@.len() < usize::MAX,
    ensures
        d as int == lev(a@, b@),
{
    let a_len = a.len();
    let b_len = b.len();
    if a_len == 0 {
        return b_len;
    }
    if b_len == 0 {
        return a_len;
    }
    let mut matrix: Vec<Vec<usize>> = Vec::new();
    let mut row0: Vec<usize> = Vec::new();
    let mut j: usize = 0;
    while j <= b_len
        invariant
            j <= b_len + 1,
            b_len < usize::MAX,
            b_len == b@.len(),
            row0@.len() == j,
            forall|jj: int| 0 <= jj < j ==> row0@[jj] == jj,
        decreases b_len + 1 - j,
    {
        row0.push(j);
        j = j + 1;
    }
    matrix.push(row0);
    assert forall|jj: int| 0 <= jj <= b_len implies lev(a@.take(0), b@.take(jj)) == jj by {
        assert(a@.take(0).len() == 0);
        assert(b@.take(jj).len() == jj);
    }
    let mut i: usize = 1;
    while i <= a_len
        invariant
            1 <= i <= a_len + 1,
            a_len == a@.len(),
            b_len == b@.len(),
            a_len < usize::MAX,
            b_len < usize::MAX,
            1 <= a_len,
            1 <= b_len,
            matrix@.len() == i,
            forall|ii: int| 0 <= ii < i ==> (#[trigger] matrix@[ii])@.len() == b_len + 1,
            forall|ii: int, jj: int|
                0 <= ii < i && 0 <= jj <= b_len ==> (#[trigger] matrix@[ii]@[jj]) as int == lev(
                    a@.take(ii),
                    b@.take(jj),
                ),
        decreases a_len + 1 - i,
    {
        let ghost ig = i as int;
        let mut row: Vec<usize> = Vec::new();
        row.push(i);
        assert(lev(a@.take(ig), b@.take(0)) == ig) by {
            assert(a@.take(ig).len() == ig);
            assert(b@.take(0).len() == 0);
        }
        let mut j: usize = 1;
        while j <= b_len
            invariant
                1 <= j <= b_len + 1,
                1 <= i <= a_len,
                a_len == a@.len(),
                b_len == b@.len(),
                a_len < usize::MAX,
                b_len < usize::MAX,
                matrix@.len() == i,
                forall|ii: int| 0 <= ii < i ==> (#[trigger] matrix@[ii])@.len() == b_len + 1,
                forall|ii: int, jj: int|
                    0 <= ii < i && 0 <= jj <= b_len ==> (#[trigger] matrix@[ii]@[jj]) as int == lev(
                        a@.take(ii),
                        b@.take(jj),
                    ),
                row@.len() == j,
                forall|jj: int| 0 <= jj < j ==> (#[trigger] row@[jj]) as int == lev(
                    a@.take(i as int),
                    b@.take(jj),
                ),
            decreases b_len + 1 - j,
        {
            let ghost ig = i as int;
            let ghost jg = j as int;
            let cost: usize = if a[i - 1] == b[j - 1] {
                0
            } else {
                1
            };
            let up = matrix[i - 1][j];
            let left = row[j - 1];
            let diag = matrix[i - 1][j - 1];
            proof {
                lemma_lev_bounds(a@.take(ig - 1), b@.take(jg));
                lemma_lev_bounds(a@.take(ig), b@.take(jg - 1));
                lemma_lev_bounds(a@.take(ig - 1), b@.take(jg - 1));
            }
            let through_up = up + 1;
            let through_left = left + 1;
            let through_diag = diag + cost;
            let mut best = through_up;
            if through_left < best {
                best = through_left;
            }
            if through_diag < best {
                best = through_diag;
            }
            proof {
                assert(a@.take(ig).drop_last() =~= a@.take(ig - 1));
                assert(b@.take(jg).drop_last() =~= b@.take(jg - 1));
                assert(a@.take(ig).last() == a@[ig - 1]);
                assert(b@.take(jg).last() == b@[jg - 1]);
                assert(lev(a@.take(ig), b@.take(jg)) == min3(
                    lev(a@.take(ig - 1), b@.take(jg)) + 1,
                    lev(a@.take(ig), b@.take(jg - 1)) + 1,
                    lev(a@.take(ig - 1), b@.take(jg - 1)) + (if a@[ig - 1] == b@[jg - 1] {
                        0int
                    } else {
                        1int
                    }),
                ));
            }
            row.push(best);
            j = j + 1;
        }
        matrix.push(row);
        i = i + 1;
    }
    proof {
        assert(a@.take(a_len as int) =~= a@);
        assert(b@.take(b_len as int) =~= b@);
    }
    matrix[a_len][b_len]
}

/// Levenshtein edit distance between two strings, counted over Unicode code
/// points.
pub fn levenshtein_distance(a: &str, b: &str) -> (d: usize)
    ensures
        d as int == lev(a@, b@),
{
    let va = chars_of(a);
    let vb = chars_of(b);
    levenshtein_chars(&va, &vb)
}

/// A similarity score, kept as the exact rational `num / den`.
#[derive(Debug, Clone, Copy, PartialEq, Eq, Structural)]
pub struct Similarity {
    /// Numerator of the score.
    pub num: usize,
    /// Denominator of the score; always at least one.
    pub den: usize,
}

/// Numerator of the similarity score of two names: `1` when the lowercased
/// names are equal, otherwise the longer lowercased length minus their edit
/// distance.
pub open spec fn score_num(o: Seq<char>, d: Seq<char>) -> int {
    let a = lower_of(o);
    let b = lower_of(d);
    if a == b {
        1
    } else {
        max_int(a.len() as int, b.len() as int) - lev(a, b)
    }
}

/// Denominator of the similarity score of two names: `1` when the
/// lowercased names are equal, otherwise the longer lowercased length.
pub open spec fn score_den(o: Seq<char>, d: Seq<char>) -> int {
    let a = lower_of(o);
    let b = lower_of(d);
    if a == b {
        1
    } else {
        max_int(a.len() as int, b.len() as int)
    }
}

/// The similarity score of `o` and `d` is strictly greater than the
/// matching threshold.
pub open spec fn score_exceeds_threshold(o: Seq<char>, d: Seq<char>) -> bool {
    (SIMILARITY_THRESHOLD_DEN as int) * score_num(o, d) > (SIMILARITY_THRESHOLD_NUM as int)
        * score_den(o, d)
}

/// The similarity score of `o1` against `d` is strictly greater than that
/// of `o2` against `d`, compared by cross-multiplication.
pub open spec fn score_gt(o1: Seq<char>, o2: Seq<char>, d: Seq<char>) -> bool {
    score_num(o1, d) * score_den(o2, d) > score_num(o2, d) * score_den(o1, d)
}

/// The product of two values below `2^64` fits in a `u128`.
proof fn lemma_mul_fits_u128(a: u128, b: u128)
    by (nonlinear_arith)
    requires
        a <= 0xFFFF_FFFF_FFFF_FFFFu128,
        b <= 0xFFFF_FFFF_FFFF_FFFFu128,
    ensures
        a * b <= 0xFFFF_FFFF_FFFF_FFFF_FFFF_FFFF_FFFF_FFFFu128,
{
}

impl Similarity {
    /// A score never exceeds one: the numerator is at most the denominator,
    /// which is positive.
    pub open spec fn valid(self) -> bool {
        1 <= self.den && self.num <= self.den
    }

    /// This value is the similarity score of the names `o` and `d`.
    pub open spec fn is_score_of(self, o: Seq<char>, d: Seq<char>) -> bool {
        self.num as int == score_num(o, d) && self.den as int == score_den(o, d)
    }

    /// Whether the score is strictly greater than the matching threshold of
    /// `SIMILARITY_THRESHOLD_NUM / SIMILARITY_THRESHOLD_DEN`.
    pub fn exceeds_threshold(&self) -> (r: bool)
        ensures
            r == ((SIMILARITY_THRESHOLD_DEN as int) * (self.num as int) > (
            SIMILARITY_THRESHOLD_NUM as int) * (self.den as int)),
    {
        (self.num as u128) * (SIMILARITY_THRESHOLD_DEN as u128) > (self.den as u128) * (
        SIMILARITY_THRESHOLD_NUM as u128)
    }

    /// Whether this score is strictly greater than `other`, compared as
    /// exact rationals by cross-multiplication.
    pub fn gt(&self, other: &Similarity) -> (r: bool)
        ensures
            r == ((self.num as int) * (other.den as int) > (other.num as int) * (self.den as int)),
    {
        proof {
            lemma_mul_fits_u128(self.num as u128, other.den as u128);
            lemma_mul_fits_u128(other.num as u128, self.den as u128);
        }
        (self.num as u128) * (other.den as u128) > (other.num as u128) * (self.den as u128)
    }
}

/// Similarity score of two label names, compared case-insensitively.
///
/// Equal names (after lowercasing) score exactly one.  Distinct names score
/// `(m - d) / m`, where `d` is their Levenshtein distance and `m` the longer
/// lowercased length.
pub fn calculate_label_similarity(a: &str, b: &str) -> (r: Similarity)
    ensures
        r.is_score_of(a@, b@),
        r.valid(),
{
    let la = lower_str(a);
    let lb = lower_str(b);
    if la == lb {
        Similarity { num: 1, den: 1 }
    } else {
        let va = chars_of(la.as_str());
        let vb = chars_of(lb.as_str());
        proof {
            lemma_lev_bounds(va@, vb@);
            if va@.len() == 0 && vb@.len() == 0 {
                assert(la@ =~= lb@);
            }
        }
        let d = levenshtein_chars(&va, &vb);
        let m = if va.len() >= vb.len() {
            va.len()
        } else {
            vb.len()
        };
        Similarity { num: m - d, den: m }
    }
}

} // verus!
