//! The unit-cost edit (Levenshtein) distance, stated by the Wagner-Fischer
//! recurrence over prefixes, and the laws it obeys.
use vstd::prelude::*;

verus! {

/// Smallest of three integers.
pub open spec fn min3(x: int, y: int, z: int) -> int {
    if x <= y && x <= z {
        x
    } else if y <= z {
        y
    } else {
        z
    }
}

/// Edit distance between the first `i` characters of `a` and the first `j`
/// characters of `b`.
pub open spec fn edit(a: Seq<char>, b: Seq<char>, i: int, j: int) -> int
    decreases i + j,
    when i >= 0 && j >= 0
{
    if i == 0 {
        j
    } else if j == 0 {
        i
    } else {
        min3(
            edit(a, b, i - 1, j) + 1,
            edit(a, b, i, j - 1) + 1,
            edit(a, b, i - 1, j - 1) + if a[i - 1] == b[j - 1] { 0int } else { 1int },
        )
    }
}

/// Edit distance between two whole words.
pub open spec fn dist(a: Seq<char>, b: Seq<char>) -> int {
    edit(a, b, a.len() as int, b.len() as int)
}

proof fn lemma_edit_self(a: Seq<char>, i: int)
    requires
        0 <= i <= a.len(),
    ensures
        edit(a, a, i, i) == 0,
    decreases i,
{
    if i > 0 {
        lemma_edit_self(a, i - 1);
        lemma_edit_nonneg(a, a, i - 1, i);
        lemma_edit_nonneg(a, a, i, i - 1);
    }
}

/// Prefix distances are never negative.
pub proof fn lemma_edit_nonneg(a: Seq<char>, b: Seq<char>, i: int, j: int)
    requires
        i >= 0,
        j >= 0,
    ensures
        edit(a, b, i, j) >= 0,
    decreases i + j,
{
    if i > 0 && j > 0 {
        lemma_edit_nonneg(a, b, i - 1, j);
        lemma_edit_nonneg(a, b, i, j - 1);
        lemma_edit_nonneg(a, b, i - 1, j - 1);
    }
}

proof fn lemma_edit_symmetric(a: Seq<char>, b: Seq<char>, i: int, j: int)
    requires
        i >= 0,
        j >= 0,
    ensures
        edit(a, b, i, j) == edit(b, a, j, i),
    decreases i + j,
{
    if i > 0 && j > 0 {
        lemma_edit_symmetric(a, b, i - 1, j);
        lemma_edit_symmetric(a, b, i, j - 1);
        lemma_edit_symmetric(a, b, i - 1, j - 1);
    }
}

/// Prefix distances are at least the difference of the prefix lengths.
pub proof fn lemma_edit_length_gap(a: Seq<char>, b: Seq<char>, i: int, j: int)
    requires
        i >= 0,
        j >= 0,
    ensures
        edit(a, b, i, j) >= i - j,
        edit(a, b, i, j) >= j - i,
    decreases i + j,
{
    if i > 0 && j > 0 {
        lemma_edit_length_gap(a, b, i - 1, j);
        lemma_edit_length_gap(a, b, i, j - 1);
        lemma_edit_length_gap(a, b, i - 1, j - 1);
    }
}

/// A prefix distance depends only on the prefixes themselves: words that
/// agree on their first `j` characters give the same values up to column `j`.
pub proof fn lemma_edit_prefix(a: Seq<char>, b: Seq<char>, c: Seq<char>, i: int, j: int)
    requires
        0 <= i <= a.len(),
        0 <= j <= b.len(),
        j <= c.len(),
        b.subrange(0, j) == c.subrange(0, j),
    ensures
        edit(a, b, i, j) == edit(a, c, i, j),
    decreases i + j,
{
    if i > 0 && j > 0 {
        assert(b[j - 1] == b.subrange(0, j)[j - 1]);
        assert(c[j - 1] == c.subrange(0, j)[j - 1]);
        assert(b.subrange(0, j - 1) =~= b.subrange(0, j).subrange(0, j - 1));
        assert(c.subrange(0, j - 1) =~= c.subrange(0, j).subrange(0, j - 1));
        lemma_edit_prefix(a, b, c, i - 1, j);
        lemma_edit_prefix(a, b, c, i, j - 1);
        lemma_edit_prefix(a, b, c, i - 1, j - 1);
    }
}

/// A word is at distance zero from itself.
pub proof fn lemma_dist_self(a: Seq<char>)
    ensures
        dist(a, a) == 0,
{
    lemma_edit_self(a, a.len() as int);
}

/// The distance does not depend on which word comes first.
pub proof fn lemma_dist_symmetric(a: Seq<char>, b: Seq<char>)
    ensures
        dist(a, b) == dist(b, a),
{
    lemma_edit_symmetric(a, b, a.len() as int, b.len() as int);
}

/// The distance is at least the difference of the two lengths, which is what
/// makes skipping a word by its length sound.
pub proof fn lemma_dist_length_gap(a: Seq<char>, b: Seq<char>)
    ensures
        dist(a, b) >= a.len() - b.len(),
        dist(a, b) >= b.len() - a.len(),
{
    lemma_edit_length_gap(a, b, a.len() as int, b.len() as int);
}

} // verus!
