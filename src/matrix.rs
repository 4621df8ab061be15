//! The reusable Wagner-Fischer grid, with reuse of columns shared with the
//! previously compared word.
use vstd::prelude::*;
use crate::edit::{dist, edit, lemma_edit_prefix, min3};
use crate::word::{SVecC, MAX_LEN};

verus! {

/// Number of rows, and of columns, of the grid: one more than `MAX_LEN`.
pub const SIDE: usize = 41;

/// Number of cells of the grid.
pub const CELLS: usize = 1681;

/// A `SIDE` by `SIDE` grid of prefix distances, stored row after row.
///
/// Row 0 and column 0 always hold the distances from the empty prefix.
pub struct DistanceMatrix {
    cells: Vec<u8>,
}

proof fn lemma_slot(i: int, j: int, i2: int, j2: int)
    requires
        0 <= i <= 40,
        0 <= j <= 40,
        0 <= i2 <= 40,
        0 <= j2 <= 40,
    ensures
        0 <= i * 41 + j < 1681,
        (i * 41 + j == i2 * 41 + j2) <==> (i == i2 && j == j2),
        i2 < i ==> i2 * 41 + j2 < i * 41,
{
    assert(0 <= i * 41 + j < 1681) by (nonlinear_arith)
        requires
            0 <= i <= 40,
            0 <= j <= 40,
    ;
    assert((i * 41 + j == i2 * 41 + j2) ==> (i == i2 && j == j2)) by (nonlinear_arith)
        requires
            0 <= i <= 40,
            0 <= j <= 40,
            0 <= i2 <= 40,
            0 <= j2 <= 40,
    ;
    assert(i2 < i ==> i2 * 41 + j2 < i * 41) by (nonlinear_arith)
        requires
            0 <= j2 <= 40,
    ;
}

/// What a fresh grid holds: the base row and column, and zero elsewhere.
spec fn base_value(i: int, j: int) -> int {
    if i == 0 {
        j
    } else if j == 0 {
        i
    } else {
        0
    }
}

impl DistanceMatrix {
    /// The value held at row `i`, column `j`.
    pub closed spec fn cell(&self, i: int, j: int) -> int {
        self.cells@[i * 41 + j] as int
    }

    /// The grid has its full size, its base row and column, and no cell above
    /// the sum of its row and column.
    pub closed spec fn wf(&self) -> bool {
        &&& self.cells.len() == CELLS
        &&& forall|i: int| 0 <= i <= MAX_LEN ==> #[trigger] self.cell(i, 0) == i
        &&& forall|j: int| 0 <= j <= MAX_LEN ==> #[trigger] self.cell(0, j) == j
        &&& forall|i: int, j: int|
            0 <= i <= MAX_LEN && 0 <= j <= MAX_LEN ==> #[trigger] self.cell(i, j) <= i + j
    }

    /// Rows `0..=rows` and columns `0..=cols` hold the prefix distances
    /// between `a` and `b`.
    pub open spec fn agrees(&self, a: Seq<char>, b: Seq<char>, rows: int, cols: int) -> bool {
        forall|i: int, j: int|
            0 <= i <= rows && 0 <= j <= cols ==> #[trigger] self.cell(i, j) == edit(a, b, i, j)
    }

    /// A grid with its base row and column in place.
    pub fn new() -> (r: DistanceMatrix)
        ensures
            r.wf(),
    {
        let mut cells: Vec<u8> = Vec::with_capacity(CELLS);
        let mut i: usize = 0;
        while i < SIDE
            invariant
                i <= SIDE,
                cells.len() == i * 41,
                forall|i2: int, j2: int|
                    0 <= i2 < i && 0 <= j2 <= 40 ==> #[trigger] cells@[i2 * 41 + j2] as int == base_value(i2, j2),
            decreases SIDE - i,
        {
            let mut j: usize = 0;
            while j < SIDE
                invariant
                    i < SIDE,
                    j <= SIDE,
                    cells.len() == i * 41 + j,
                    forall|i2: int, j2: int|
                        0 <= j2 <= 40 && (0 <= i2 < i || (i2 == i && j2 < j))
                            ==> #[trigger] cells@[i2 * 41 + j2] as int == base_value(i2, j2),
                decreases SIDE - j,
            {
                let v: u8 = if i == 0 {
                    j as u8
                } else if j == 0 {
                    i as u8
                } else {
                    0
                };
                let ghost before = cells@;
                cells.push(v);
                proof {
                    assert forall|i2: int, j2: int|
                        0 <= j2 <= 40 && (0 <= i2 < i || (i2 == i && j2 <= j)) implies #[trigger] cells@[i2
                        * 41 + j2] as int == base_value(i2, j2) by {
                        lemma_slot(i as int, j as int, i2, j2);
                        if !(i2 == i && j2 == j) {
                            assert(cells@[i2 * 41 + j2] == before[i2 * 41 + j2]);
                        }
                    }
                }
                j = j + 1;
            }
            i = i + 1;
        }
        let r = DistanceMatrix { cells };
        proof {
            assert forall|i: int, j: int| 0 <= i <= MAX_LEN && 0 <= j <= MAX_LEN implies #[trigger] r.cell(i, j) <= i + j by {
                assert(r.cells@[i * 41 + j] == cells@[i * 41 + j]);
            }
            assert forall|i: int| 0 <= i <= MAX_LEN implies #[trigger] r.cell(i, 0) == i by {
                assert(r.cells@[i * 41 + 0] == cells@[i * 41 + 0]);
            }
            assert forall|j: int| 0 <= j <= MAX_LEN implies #[trigger] r.cell(0, j) == j by {
                assert(r.cells@[0 * 41 + j] == cells@[0 * 41 + j]);
            }
        }
        r
    }

    fn get(&self, i: usize, j: usize) -> (r: u8)
        requires
            self.wf(),
            i <= MAX_LEN,
            j <= MAX_LEN,
        ensures
            r as int == self.cell(i as int, j as int),
    {
        proof {
            lemma_slot(i as int, j as int, 0, 0);
        }
        self.cells[i * SIDE + j]
    }

    fn set(&mut self, i: usize, j: usize, v: u8)
        requires
            old(self).cells.len() == CELLS,
            i <= MAX_LEN,
            j <= MAX_LEN,
        ensures
            final(self).cells.len() == CELLS,
            final(self).cell(i as int, j as int) == v,
            forall|i2: int, j2: int|
                0 <= i2 <= MAX_LEN && 0 <= j2 <= MAX_LEN && !(i2 == i && j2 == j)
                    ==> #[trigger] final(self).cell(i2, j2) == old(self).cell(i2, j2),
    {
        proof {
            lemma_slot(i as int, j as int, 0, 0);
        }
        self.cells.set(i * SIDE + j, v);
        proof {
            assert forall|i2: int, j2: int|
                0 <= i2 <= MAX_LEN && 0 <= j2 <= MAX_LEN && !(i2 == i && j2 == j)
                    implies #[trigger] self.cell(i2, j2) == old(self).cell(i2, j2) by {
                lemma_slot(i as int, j as int, i2, j2);
                lemma_slot(i2, j2, 0, 0);
            }
        }
    }

    /// Distance between `w1` and `w2`, filling columns `reuse + 1 ..= w2.len()`
    /// of rows `1 ..= w1.len()`; columns up to `reuse` must already hold the
    /// prefix distances of the two words, as they do after a comparison of
    /// `w1` with a word that shares the first `reuse` characters of `w2`.
    pub fn compute(&mut self, w1: &SVecC, w2: &SVecC, reuse: usize) -> (d: u8)
        requires
            old(self).wf(),
            reuse <= w2@.len(),
            old(self).agrees(w1@, w2@, w1@.len() as int, reuse as int),
        ensures
            final(self).wf(),
            d as int == dist(w1@, w2@),
            final(self).agrees(w1@, w2@, w1@.len() as int, w2@.len() as int),
    {
        let l1 = w1.len();
        let l2 = w2.len();
        let mut p1: usize = 1;
        while p1 <= l1
            invariant
                1 <= p1 <= l1 + 1,
                l1 == w1@.len(),
                l2 == w2@.len(),
                l1 <= MAX_LEN,
                l2 <= MAX_LEN,
                reuse <= l2,
                self.wf(),
                forall|i: int, j: int|
                    0 <= i <= l1 && 0 <= j <= l2 && (i < p1 || j <= reuse) ==> #[trigger] self.cell(
                        i,
                        j,
                    ) == edit(w1@, w2@, i, j),
            decreases l1 + 1 - p1,
        {
            let c1 = w1.index(p1 - 1);
            let mut p2: usize = reuse + 1;
            while p2 <= l2
                invariant
                    1 <= p1 <= l1,
                    reuse + 1 <= p2 <= l2 + 1,
                    l1 == w1@.len(),
                    l2 == w2@.len(),
                    l1 <= MAX_LEN,
                    l2 <= MAX_LEN,
                    c1 == w1@[p1 - 1],
                    self.wf(),
                    forall|i: int, j: int|
                        0 <= i <= l1 && 0 <= j <= l2 && (i < p1 || j <= reuse || (i == p1 && j < p2))
                            ==> #[trigger] self.cell(i, j) == edit(w1@, w2@, i, j),
                decreases l2 + 1 - p2,
            {
                let up = self.get(p1 - 1, p2) + 1;
                let left = self.get(p1, p2 - 1) + 1;
                let diag = self.get(p1 - 1, p2 - 1) + if c1 == w2.index(p2 - 1) {
                    0u8
                } else {
                    1u8
                };
                let mut best = up;
                if left < best {
                    best = left;
                }
                if diag < best {
                    best = diag;
                }
                proof {
                    assert(best as int == min3(up as int, left as int, diag as int));
                    assert(best as int == edit(w1@, w2@, p1 as int, p2 as int));
                }
                let ghost before = *self;
                self.set(p1, p2, best);
                proof {
                    assert forall|i: int, j: int|
                        0 <= i <= MAX_LEN && 0 <= j <= MAX_LEN implies #[trigger] self.cell(i, j)
                        <= i + j by {
                        if !(i == p1 && j == p2) {
                            assert(self.cell(i, j) == before.cell(i, j));
                        }
                    }
                    assert forall|i: int| 0 <= i <= MAX_LEN implies #[trigger] self.cell(i, 0) == i by {
                        assert(self.cell(i, 0) == before.cell(i, 0));
                    }
                    assert forall|j: int| 0 <= j <= MAX_LEN implies #[trigger] self.cell(0, j) == j by {
                        assert(self.cell(0, j) == before.cell(0, j));
                    }
                    assert forall|i: int, j: int|
                        0 <= i <= l1 && 0 <= j <= l2 && (i < p1 || j <= reuse || (i == p1 && j < p2
                            + 1)) implies #[trigger] self.cell(i, j) == edit(w1@, w2@, i, j) by {
                        if !(i == p1 && j == p2) {
                            assert(self.cell(i, j) == before.cell(i, j));
                        }
                    }
                }
                p2 = p2 + 1;
            }
            p1 = p1 + 1;
        }
        self.get(l1, l2)
    }

    /// Distance between `w1` and `w2`, recomputing every column.
    pub fn distance(&mut self, w1: &SVecC, w2: &SVecC) -> (d: u8)
        requires
            old(self).wf(),
        ensures
            final(self).wf(),
            d as int == dist(w1@, w2@),
            final(self).agrees(w1@, w2@, w1@.len() as int, w2@.len() as int),
    {
        let l1 = w1.len();
        proof {
            self.lemma_base_column(w1@, w2@, l1 as int);
        }
        self.compute(w1, w2, 0)
    }

    /// Column 0 of a well-formed grid holds the prefix distances of any words.
    pub proof fn lemma_base_column(&self, a: Seq<char>, b: Seq<char>, rows: int)
        requires
            self.wf(),
            rows <= MAX_LEN,
        ensures
            self.agrees(a, b, rows, 0),
    {
        assert forall|i: int, j: int| 0 <= i <= rows && 0 <= j <= 0 implies #[trigger] self.cell(i, j)
            == edit(a, b, i, j) by {
            assert(self.cell(i, 0) == i);
        }
    }

    /// Columns that a grid holds for `a` against `b` are also right for `a`
    /// against any `c` that begins with the same `k` characters as `b`.
    pub proof fn lemma_shared_prefix(&self, a: Seq<char>, b: Seq<char>, c: Seq<char>, k: int)
        requires
            self.agrees(a, b, a.len() as int, b.len() as int),
            0 <= k <= b.len(),
            k <= c.len(),
            b.subrange(0, k) == c.subrange(0, k),
        ensures
            self.agrees(a, c, a.len() as int, k),
    {
        assert forall|i: int, j: int| 0 <= i <= a.len() && 0 <= j <= k implies #[trigger] self.cell(
            i,
            j,
        ) == edit(a, c, i, j) by {
            assert(b.subrange(0, j) =~= b.subrange(0, k).subrange(0, j));
            assert(c.subrange(0, j) =~= c.subrange(0, k).subrange(0, j));
            lemma_edit_prefix(a, b, c, i, j);
        }
    }
}

} // verus!
