//! A rectangular grid of cells stored row by row, and centred copying
//! between grids of different sizes.

use vstd::prelude::*;

verus! {

/// Whether every row of `rows` has exactly `cols` cells.
pub open spec fn is_rect<T>(rows: Seq<Seq<T>>, cols: nat) -> bool {
    forall|i: int| 0 <= i < rows.len() ==> #[trigger] rows[i].len() == cols
}

/// A `rows` by `cols` block in which every cell is `value`.
pub open spec fn filled_rows<T>(rows: nat, cols: nat, value: T) -> Seq<Seq<T>> {
    Seq::new(rows, |i: int| Seq::new(cols, |j: int| value))
}

/// The smaller of two naturals.
pub open spec fn min_nat(a: nat, b: nat) -> nat {
    if a <= b { a } else { b }
}

/// Cell `(r, c)` of the `rows` by `cols` block that holds the middle of the
/// `src` block (of width `src_cols`) centred in it, with `fill` elsewhere.
/// Along each axis the copied extent is the smaller of the two sizes; the
/// source is cropped symmetrically when it is larger and placed with equal
/// margins when it is smaller (the extra cell of an odd margin goes last).
pub open spec fn centered_cell<T>(
    src: Seq<Seq<T>>,
    src_cols: nat,
    rows: nat,
    cols: nat,
    fill: T,
    r: int,
    c: int,
) -> T {
    let row_copy = min_nat(src.len(), rows);
    let col_copy = min_nat(src_cols, cols);
    let src_row0 = (src.len() - row_copy) / 2;
    let src_col0 = (src_cols - col_copy) / 2;
    let dst_row0 = (rows - row_copy) / 2;
    let dst_col0 = (cols - col_copy) / 2;
    if dst_row0 <= r < dst_row0 + row_copy && dst_col0 <= c < dst_col0 + col_copy {
        src[r - dst_row0 + src_row0][c - dst_col0 + src_col0]
    } else {
        fill
    }
}

/// The whole `rows` by `cols` block described by `centered_cell`.
pub open spec fn centered<T>(src: Seq<Seq<T>>, src_cols: nat, rows: nat, cols: nat, fill: T) -> Seq<Seq<T>> {
    Seq::new(rows, |r: int| Seq::new(cols, |c: int| centered_cell(src, src_cols, rows, cols, fill, r, c)))
}

/// A rectangular block of cells stored row by row.
pub struct Grid<T> {
    cols: usize,
    data: Vec<Vec<T>>,
}

impl<T> Grid<T> {
    #[verifier::type_invariant]
    spec fn rectangular(self) -> bool {
        forall|i: int| 0 <= i < self.data@.len() ==> (#[trigger] self.data@[i])@.len() == self.cols
    }

    /// The cells, row by row.
    pub closed spec fn view(&self) -> Seq<Seq<T>> {
        self.data@.map_values(|r: Vec<T>| r@)
    }

    /// The number of columns (kept also when there are no rows).
    pub closed spec fn width(&self) -> nat {
        self.cols as nat
    }

    /// Number of rows.
    pub fn nrows(&self) -> (n: usize)
        ensures
            n == self@.len(),
            is_rect(self@, self.width()),
    {
        proof {
            use_type_invariant(self);
        }
        self.data.len()
    }

    /// Number of columns.
    pub fn ncols(&self) -> (n: usize)
        ensures
            n == self.width(),
            is_rect(self@, self.width()),
    {
        proof {
            use_type_invariant(self);
        }
        self.cols
    }

    /// A grid built from `data`, whose rows must each have `cols` cells;
    /// `None` when some row has another length.
    pub fn from_rows(cols: usize, data: Vec<Vec<T>>) -> (g: Option<Grid<T>>)
        ensures
            g is Some <==> is_rect(data@.map_values(|r: Vec<T>| r@), cols as nat),
            g matches Some(g) ==> g@ == data@.map_values(|r: Vec<T>| r@) && g.width() == cols,
    {
        let mut i: usize = 0;
        while i < data.len()
            invariant
                i <= data@.len(),
                forall|k: int| 0 <= k < i ==> (#[trigger] data@[k])@.len() == cols,
            decreases data@.len() - i,
        {
            if data[i].len() != cols {
                proof {
                    let m = data@.map_values(|r: Vec<T>| r@);
                    assert(m[i as int].len() != cols);
                }
                return None;
            }
            i = i + 1;
        }
        proof {
            let m = data@.map_values(|r: Vec<T>| r@);
            assert forall|k: int| 0 <= k < m.len() implies #[trigger] m[k].len() == cols by {
                assert(data@[k]@.len() == cols);
            }
        }
        Some(Grid { cols, data })
    }

    /// The rows of the grid.
    pub fn into_rows(self) -> (rows: Vec<Vec<T>>)
        ensures
            rows@.map_values(|r: Vec<T>| r@) == self@,
            is_rect(self@, self.width()),
    {
        proof {
            use_type_invariant(&self);
        }
        self.data
    }
}

impl<T: Copy> Grid<T> {
    /// A `rows` by `cols` grid with every cell set to `value`.
    pub fn filled(rows: usize, cols: usize, value: T) -> (g: Grid<T>)
        ensures
            g@ == filled_rows(rows as nat, cols as nat, value),
            g.width() == cols,
    {
        let mut data: Vec<Vec<T>> = Vec::new();
        for i in 0..rows
            invariant
                data@.len() == i,
                forall|k: int| 0 <= k < i ==> (#[trigger] data@[k])@ == Seq::new(cols as nat, |j: int| value),
        {
            let mut row: Vec<T> = Vec::new();
            for j in 0..cols
                invariant
                    row@ == Seq::new(j as nat, |x: int| value),
            {
                row.push(value);
                proof {
                    assert(row@ =~= Seq::new((j + 1) as nat, |x: int| value));
                }
            }
            data.push(row);
        }
        let g = Grid { cols, data };
        proof {
            assert(g@ =~= filled_rows(rows as nat, cols as nat, value));
        }
        g
    }

    /// The cell in row `r` and column `c`.
    pub fn get(&self, r: usize, c: usize) -> (v: T)
        requires
            r < self@.len(),
            c < self.width(),
        ensures
            v == self@[r as int][c as int],
    {
        proof {
            use_type_invariant(self);
        }
        self.data[r][c]
    }

    /// A `rows` by `cols` grid holding the middle of this grid, centred, with
    /// `fill` around it (the placement that species patterns and resized
    /// worlds use).
    pub fn centered_copy(&self, rows: usize, cols: usize, fill: T) -> (g: Grid<T>)
        ensures
            g@ == centered(self@, self.width(), rows as nat, cols as nat, fill),
            g.width() == cols,
    {
        proof {
            use_type_invariant(self);
        }
        let src_rows = self.data.len();
        let src_cols = self.cols;
        let row_copy = if src_rows <= rows { src_rows } else { rows };
        let col_copy = if src_cols <= cols { src_cols } else { cols };
        let src_row0 = (src_rows - row_copy) / 2;
        let src_col0 = (src_cols - col_copy) / 2;
        let dst_row0 = (rows - row_copy) / 2;
        let dst_col0 = (cols - col_copy) / 2;
        let ghost want = centered(self@, self.width(), rows as nat, cols as nat, fill);
        let mut data: Vec<Vec<T>> = Vec::new();
        for r in 0..rows
            invariant
                data@.len() == r,
                src_rows == self@.len(),
                src_cols == self.width(),
                is_rect(self@, self.width()),
                row_copy == min_nat(src_rows as nat, rows as nat),
                col_copy == min_nat(src_cols as nat, cols as nat),
                src_row0 == (src_rows - row_copy) / 2,
                src_col0 == (src_cols - col_copy) / 2,
                dst_row0 == (rows - row_copy) / 2,
                dst_col0 == (cols - col_copy) / 2,
                want == centered(self@, self.width(), rows as nat, cols as nat, fill),
                forall|k: int| 0 <= k < r ==> (#[trigger] data@[k])@ == want[k],
        {
            let mut row: Vec<T> = Vec::new();
            let in_rows = dst_row0 <= r && r < dst_row0 + row_copy;
            for c in 0..cols
                invariant
                    row@.len() == c,
                    r < rows,
                    src_rows == self@.len(),
                    src_cols == self.width(),
                    is_rect(self@, self.width()),
                    row_copy == min_nat(src_rows as nat, rows as nat),
                    col_copy == min_nat(src_cols as nat, cols as nat),
                    src_row0 == (src_rows - row_copy) / 2,
                    src_col0 == (src_cols - col_copy) / 2,
                    dst_row0 == (rows - row_copy) / 2,
                    dst_col0 == (cols - col_copy) / 2,
                    in_rows == (dst_row0 <= r && r < dst_row0 + row_copy),
                    want == centered(self@, self.width(), rows as nat, cols as nat, fill),
                    forall|k: int| 0 <= k < c ==> #[trigger] row@[k] == want[r as int][k],
            {
                if in_rows && dst_col0 <= c && c < dst_col0 + col_copy {
                    let sr = r - dst_row0 + src_row0;
                    let sc = c - dst_col0 + src_col0;
                    proof {
                        assert(self@[sr as int].len() == self.width());
                    }
                    row.push(self.data[sr][sc]);
                } else {
                    row.push(fill);
                }
            }
            proof {
                assert(row@ =~= want[r as int]);
            }
            data.push(row);
        }
        let g = Grid { cols, data };
        proof {
            assert(g@ =~= want);
        }
        g
    }
}

/// Placing a grid in a larger one with `centered_copy` and then taking the
/// centred block of the starting size back gives the starting grid: growing a
/// world and shrinking it again restores it.
pub proof fn lemma_centered_round_trip<T>(p: Seq<Seq<T>>, cols: nat, big_rows: nat, big_cols: nat, fill: T)
    requires
        is_rect(p, cols),
        p.len() <= big_rows,
        cols <= big_cols,
    ensures
        centered(centered(p, cols, big_rows, big_cols, fill), big_cols, p.len(), cols, fill) == p,
{
    let mid = centered(p, cols, big_rows, big_cols, fill);
    let back = centered(mid, big_cols, p.len(), cols, fill);
    assert forall|r: int| 0 <= r < p.len() implies #[trigger] back[r] =~= p[r] by {
        assert forall|c: int| 0 <= c < cols implies back[r][c] == p[r][c] by {
            let r0 = (big_rows - p.len()) / 2;
            let c0 = (big_cols - cols) / 2;
            assert(back[r][c] == mid[r + r0][c + c0]);
        }
    }
    assert(back =~= p);
}

/// The shape and every cell of a centred copy, one axis at a time. Along an
/// axis with source size `n` and target size `m`, `k = min(n, m)` cells are
/// copied; they start at `(n - k) / 2` in the source and at `(m - k) / 2` in
/// the target, whatever happens along the other axis. Every other cell is
/// `fill`.
pub proof fn lemma_centered_cells<T>(p: Seq<Seq<T>>, cols: nat, rows2: nat, cols2: nat, fill: T)
    requires
        is_rect(p, cols),
    ensures
        centered(p, cols, rows2, cols2, fill).len() == rows2,
        is_rect(centered(p, cols, rows2, cols2, fill), cols2),
        forall|r: int, c: int|
            0 <= r < rows2 && 0 <= c < cols2 ==> {
                let kr: int = if p.len() <= rows2 { p.len() as int } else { rows2 as int };
                let kc: int = if cols <= cols2 { cols as int } else { cols2 as int };
                let tr: int = (rows2 - kr) / 2;
                let tc: int = (cols2 - kc) / 2;
                let sr: int = (p.len() - kr) / 2;
                let sc: int = (cols - kc) / 2;
                #[trigger] centered(p, cols, rows2, cols2, fill)[r][c] == if tr <= r < tr + kr && tc <= c < tc
                    + kc {
                    p[r - tr + sr][c - tc + sc]
                } else {
                    fill
                }
            },
{
}

/// Resizing both axes at once is the same as resizing the rows first and
/// the columns afterwards, or the columns first and the rows afterwards: the
/// placement along one axis does not depend on the other.
pub proof fn lemma_centered_axes_independent<T>(p: Seq<Seq<T>>, cols: nat, rows2: nat, cols2: nat, fill: T)
    requires
        is_rect(p, cols),
    ensures
        centered(p, cols, rows2, cols2, fill) == centered(
            centered(p, cols, rows2, cols, fill),
            cols,
            rows2,
            cols2,
            fill,
        ),
        centered(p, cols, rows2, cols2, fill) == centered(
            centered(p, cols, p.len(), cols2, fill),
            cols2,
            rows2,
            cols2,
            fill,
        ),
{
    let direct = centered(p, cols, rows2, cols2, fill);
    let by_rows = centered(centered(p, cols, rows2, cols, fill), cols, rows2, cols2, fill);
    let by_cols = centered(centered(p, cols, p.len(), cols2, fill), cols2, rows2, cols2, fill);
    assert forall|r: int| 0 <= r < rows2 implies #[trigger] direct[r] =~= by_rows[r] && direct[r]
        =~= by_cols[r] by {
        assert forall|c: int| 0 <= c < cols2 implies direct[r][c] == by_rows[r][c] && direct[r][c]
            == by_cols[r][c] by {
        }
    }
    assert(direct =~= by_rows);
    assert(direct =~= by_cols);
}

/// A grid that fits inside the target keeps every one of its cells, shifted
/// by the centring margins.
pub proof fn lemma_centered_keeps_fitting_source<T>(p: Seq<Seq<T>>, cols: nat, rows2: nat, cols2: nat, fill: T)
    requires
        is_rect(p, cols),
        p.len() <= rows2,
        cols <= cols2,
    ensures
        forall|r: int, c: int|
            0 <= r < p.len() && 0 <= c < cols ==> #[trigger] centered(p, cols, rows2, cols2, fill)[r
                + (rows2 - p.len()) / 2][c + (cols2 - cols) / 2] == p[r][c],
{
}

} // verus!
