//! The visit-count grid and its normalisation to display levels.

use vstd::prelude::*;
use crate::error::ConfigError;
use crate::grid::{grid_view, is_grid};
use crate::equalize::{
    distinct_sorted, is_sqrt_level, lemma_index_is_rank, lemma_push_contains, level_index, sqrt_level,
    strictly_ascending, values_below,
};

verus! {

/// A grid of visit counters, one per pixel, stored row by row.
#[derive(Debug)]
pub struct Histogram {
    width: u32,
    height: u32,
    cells: Vec<Vec<u32>>,
}

/// How raw counts are turned into display levels.
#[derive(Clone, Copy, Debug, PartialEq, Eq, Structural)]
pub enum Normalization {
    /// Each count as a share of the largest count.
    Linear,
    /// Each count by its rank among the distinct counts, on a square-root curve.
    Equalized,
}

/// A counter after one more visit: it stops at the largest value it can hold.
pub open spec fn bumped(count: u32) -> u32 {
    if count < u32::MAX {
        (count + 1) as u32
    } else {
        count
    }
}

/// The grid `g` after one visit to the cell `(x, y)`; visits outside the
/// grid leave it as it is.
pub open spec fn visit(g: Seq<Seq<u32>>, x: int, y: int) -> Seq<Seq<u32>> {
    if 0 <= y < g.len() && 0 <= x < g[y].len() {
        g.update(y, g[y].update(x, bumped(g[y][x])))
    } else {
        g
    }
}

/// Visits keep the shape of the grid.
pub proof fn lemma_visit_keeps_shape(g: Seq<Seq<u32>>, width: int, height: int, x: int, y: int)
    requires
        is_grid(g, width, height),
    ensures
        is_grid(visit(g, x, y), width, height),
{
    let after = visit(g, x, y);
    assert forall|j: int| 0 <= j < height implies (#[trigger] after[j]).len() == width by {
        assert(g[j].len() == width);
    }
}

/// Two visits leave the same grid in either order.
pub proof fn lemma_visits_commute(g: Seq<Seq<u32>>, x1: int, y1: int, x2: int, y2: int)
    ensures
        visit(visit(g, x1, y1), x2, y2) == visit(visit(g, x2, y2), x1, y1),
{
    let a = visit(visit(g, x1, y1), x2, y2);
    let b = visit(visit(g, x2, y2), x1, y1);
    assert(a.len() == b.len());
    assert forall|j: int| 0 <= j < a.len() implies #[trigger] a[j] =~= b[j] by {}
    assert(a =~= b);
}

/// The sum of two counters: it stops at the largest value a counter can hold.
pub open spec fn joint_count(a: u32, b: u32) -> u32 {
    if a + b > u32::MAX {
        u32::MAX
    } else {
        (a + b) as u32
    }
}

/// The largest value of a row, 0 for an empty row.
pub open spec fn row_max(row: Seq<u32>) -> u32
    decreases row.len(),
{
    if row.len() == 0 {
        0
    } else {
        let rest = row_max(row.drop_last());
        if row.last() > rest {
            row.last()
        } else {
            rest
        }
    }
}

/// The largest value of a grid, 0 for an empty grid.
pub open spec fn grid_max(g: Seq<Seq<u32>>) -> u32
    decreases g.len(),
{
    if g.len() == 0 {
        0
    } else {
        let rest = grid_max(g.drop_last());
        let here = row_max(g.last());
        if here > rest {
            here
        } else {
            rest
        }
    }
}

/// No value of the row exceeds `row_max`, and a non-empty row attains it.
pub proof fn lemma_row_max(row: Seq<u32>)
    ensures
        forall|x: int| 0 <= x < row.len() ==> #[trigger] row[x] <= row_max(row),
        row.len() > 0 ==> exists|x: int| 0 <= x < row.len() && #[trigger] row[x] == row_max(row),
    decreases row.len(),
{
    if row.len() > 0 {
        let front = row.drop_last();
        lemma_row_max(front);
        assert forall|x: int| 0 <= x < row.len() implies #[trigger] row[x] <= row_max(row) by {
            if x < front.len() {
                assert(row[x] == front[x]);
            }
        }
        if row.last() > row_max(front) || front.len() == 0 {
            assert(row[row.len() - 1] == row_max(row));
        } else {
            let x = choose|x: int| 0 <= x < front.len() && #[trigger] front[x] == row_max(front);
            assert(row[x] == row_max(row));
        }
    }
}

/// No value of the grid exceeds `grid_max`, and a grid with a positive
/// maximum attains it.
pub proof fn lemma_grid_max(g: Seq<Seq<u32>>)
    ensures
        forall|y: int, x: int| 0 <= y < g.len() && 0 <= x < g[y].len() ==> #[trigger] g[y][x] <= grid_max(g),
        grid_max(g) > 0 ==> exists|y: int, x: int|
            0 <= y < g.len() && 0 <= x < g[y].len() && #[trigger] g[y][x] == grid_max(g),
    decreases g.len(),
{
    if g.len() > 0 {
        let front = g.drop_last();
        lemma_grid_max(front);
        lemma_row_max(g.last());
        assert forall|y: int, x: int| 0 <= y < g.len() && 0 <= x < g[y].len() implies #[trigger] g[y][x]
            <= grid_max(g) by {
            if y < front.len() {
                assert(g[y][x] == front[y][x]);
            }
        }
        if grid_max(g) > 0 {
            if row_max(g.last()) > grid_max(front) {
                let x = choose|x: int| 0 <= x < g.last().len() && #[trigger] g.last()[x] == row_max(g.last());
                assert(g[g.len() - 1][x] == grid_max(g));
            } else {
                let (y, x) = choose|y: int, x: int|
                    0 <= y < front.len() && 0 <= x < front[y].len() && #[trigger] front[y][x] == grid_max(
                        front,
                    );
                assert(g[y][x] == grid_max(g));
            }
        }
    }
}

/// A value that bounds every cell and is 0 or attained is the maximum.
pub proof fn lemma_grid_max_unique(g: Seq<Seq<u32>>, m: u32)
    requires
        forall|y: int, x: int| 0 <= y < g.len() && 0 <= x < g[y].len() ==> #[trigger] g[y][x] <= m,
        m > 0 ==> exists|y: int, x: int| 0 <= y < g.len() && 0 <= x < g[y].len() && #[trigger] g[y][x] == m,
    ensures
        grid_max(g) == m,
{
    lemma_grid_max(g);
    if m > 0 {
        let (y, x) = choose|y: int, x: int| 0 <= y < g.len() && 0 <= x < g[y].len() && #[trigger] g[y][x] == m;
        assert(g[y][x] <= grid_max(g));
    }
    if grid_max(g) > 0 {
        let (y, x) = choose|y: int, x: int|
            0 <= y < g.len() && 0 <= x < g[y].len() && #[trigger] g[y][x] == grid_max(g);
        assert(g[y][x] <= m);
    }
}

impl View for Histogram {
    type V = Seq<Seq<u32>>;

    closed spec fn view(&self) -> Seq<Seq<u32>> {
        grid_view(self.cells)
    }
}

impl Histogram {
    /// Number of cells in a row.
    pub closed spec fn spec_width(self) -> int {
        self.width as int
    }

    /// Number of rows.
    pub closed spec fn spec_height(self) -> int {
        self.height as int
    }

    /// What holds of every histogram: it has cells, in rows of one length.
    pub open spec fn wf(self) -> bool {
        &&& self.spec_width() > 0
        &&& self.spec_height() > 0
        &&& is_grid(self@, self.spec_width(), self.spec_height())
    }

    #[verifier::type_invariant]
    spec fn inv(self) -> bool {
        self.wf()
    }

    /// Number of cells in a row.
    pub fn width(&self) -> (w: u32)
        ensures
            w == self.spec_width(),
            self.wf(),
    {
        proof {
            use_type_invariant(self);
        }
        self.width
    }

    /// Number of rows.
    pub fn height(&self) -> (h: u32)
        ensures
            h == self.spec_height(),
            self.wf(),
    {
        proof {
            use_type_invariant(self);
        }
        self.height
    }

    /// The counter of cell `(x, y)`, or `None` outside the grid.
    pub fn get(&self, x: u32, y: u32) -> (c: Option<u32>)
        ensures
            c == if x < self.spec_width() && y < self.spec_height() {
                Some(self@[y as int][x as int])
            } else {
                None
            },
    {
        proof {
            use_type_invariant(self);
        }
        if x < self.width && y < self.height {
            assert(self@[y as int] == self.cells@[y as int]@);
            Some(self.cells[y as usize][x as usize])
        } else {
            None
        }
    }

    /// Counts one visit to cell `(x, y)`. A visit outside the grid is
    /// dropped, and a counter that is full stays full.
    pub fn record(&mut self, x: u32, y: u32)
        ensures
            final(self)@ == visit(old(self)@, x as int, y as int),
            final(self).spec_width() == old(self).spec_width(),
            final(self).spec_height() == old(self).spec_height(),
            final(self).wf(),
    {
        proof {
            use_type_invariant(&*self);
        }
        if x < self.width && y < self.height {
            let ghost before = self@;
            assert(before[y as int] == self.cells@[y as int]@);
            assert forall|j: int| 0 <= j < self.cells@.len() implies (#[trigger] self.cells@[j])@.len()
                == self.width by {
                assert(before[j] == self.cells@[j]@);
            }
            bump_cell(&mut self.cells, x as usize, y as usize);
            assert(self@ =~= visit(before, x as int, y as int)) by {
                assert forall|j: int| 0 <= j < self@.len() implies #[trigger] self@[j] == visit(
                    before,
                    x as int,
                    y as int,
                )[j] by {
                    if j != y {
                        assert(self.cells@[j] == old(self).cells@[j]);
                    }
                }
            }
        }
    }

    /// The histogram that counts the visits of both: each counter is the
    /// sum of the two counters of its cell.
    pub fn merged(&self, other: &Histogram) -> (sum: Histogram)
        requires
            self.spec_width() == other.spec_width(),
            self.spec_height() == other.spec_height(),
        ensures
            sum.wf(),
            sum.spec_width() == self.spec_width(),
            sum.spec_height() == self.spec_height(),
            forall|y: int, x: int|
                0 <= y < self.spec_height() && 0 <= x < self.spec_width() ==> #[trigger] sum@[y][x]
                    == joint_count(self@[y][x], other@[y][x]),
    {
        proof {
            use_type_invariant(self);
            use_type_invariant(other);
        }
        let mut cells: Vec<Vec<u32>> = Vec::new();
        let mut y: usize = 0;
        while y < self.cells.len()
            invariant
                self.wf(),
                other.wf(),
                self.width == other.width,
                self.height == other.height,
                self.cells@.len() == self.height,
                other.cells@.len() == self.height,
                y <= self.cells@.len(),
                cells@.len() == y,
                forall|j: int| 0 <= j < y ==> (#[trigger] cells@[j])@.len() == self.width,
                forall|j: int, i: int|
                    0 <= j < y && 0 <= i < self.width ==> #[trigger] cells@[j]@[i] == joint_count(
                        self@[j][i],
                        other@[j][i],
                    ),
            decreases self.cells@.len() - y,
        {
            let mine = &self.cells[y];
            let theirs = &other.cells[y];
            assert(self@[y as int] == mine@);
            assert(other@[y as int] == theirs@);
            let mut row: Vec<u32> = Vec::new();
            let mut x: usize = 0;
            while x < mine.len()
                invariant
                    x <= mine@.len(),
                    mine@.len() == theirs@.len(),
                    row@.len() == x,
                    forall|i: int| 0 <= i < x ==> #[trigger] row@[i] == joint_count(mine@[i], theirs@[i]),
                decreases mine@.len() - x,
            {
                let a: u32 = mine[x];
                let b: u32 = theirs[x];
                let c: u32 = if a > u32::MAX - b {
                    u32::MAX
                } else {
                    a + b
                };
                row.push(c);
                x = x + 1;
            }
            cells.push(row);
            y = y + 1;
        }
        Histogram { width: self.width, height: self.height, cells }
    }

    /// The largest counter of the grid.
    pub fn max_count(&self) -> (m: u32)
        ensures
            m == grid_max(self@),
    {
        proof {
            use_type_invariant(self);
        }
        let mut m: u32 = 0;
        let mut y: usize = 0;
        assert(self@.take(0) =~= Seq::<Seq<u32>>::empty());
        while y < self.cells.len()
            invariant
                y <= self.cells.len(),
                m == grid_max(self@.take(y as int)),
            decreases self.cells.len() - y,
        {
            let row = &self.cells[y];
            let mut here: u32 = 0;
            let mut x: usize = 0;
            assert(row@.take(0) =~= Seq::<u32>::empty());
            while x < row.len()
                invariant
                    x <= row.len(),
                    here == row_max(row@.take(x as int)),
                decreases row.len() - x,
            {
                assert(row@.take(x + 1).drop_last() =~= row@.take(x as int));
                if row[x] > here {
                    here = row[x];
                }
                x = x + 1;
            }
            assert(row@.take(row.len() as int) =~= row@);
            assert(self@.take(y + 1).drop_last() =~= self@.take(y as int));
            assert(self@.take(y + 1).last() == row@);
            if here > m {
                m = here;
            }
            y = y + 1;
        }
        assert(self@.take(self.cells.len() as int) =~= self@);
        m
    }

    /// The display levels under the linear policy.
    pub fn normalize_linear(&self) -> (out: Vec<Vec<u8>>)
        ensures
            is_grid(grid_view(out), self.spec_width(), self.spec_height()),
            forall|y: int, x: int|
                0 <= y < self.spec_height() && 0 <= x < self.spec_width() ==> #[trigger] grid_view(out)[y][x]
                    == linear_level(self@[y][x], grid_max(self@)),
    {
        proof {
            use_type_invariant(self);
            lemma_grid_max(self@);
        }
        let max: u32 = self.max_count();
        let mut out: Vec<Vec<u8>> = Vec::new();
        let mut y: usize = 0;
        while y < self.cells.len()
            invariant
                self.wf(),
                y <= self.cells.len(),
                self.cells@.len() == self.height,
                max == grid_max(self@),
                forall|j: int, i: int|
                    0 <= j < self@.len() && 0 <= i < self@[j].len() ==> #[trigger] self@[j][i] <= max,
                out@.len() == y,
                forall|j: int| 0 <= j < y ==> (#[trigger] out@[j])@.len() == self.width,
                forall|j: int, i: int|
                    0 <= j < y && 0 <= i < self.width ==> #[trigger] out@[j]@[i] == linear_level(
                        self@[j][i],
                        max,
                    ),
            decreases self.cells.len() - y,
        {
            let row = &self.cells[y];
            assert(self@[y as int] == row@);
            let mut levels: Vec<u8> = Vec::new();
            let mut x: usize = 0;
            while x < row.len()
                invariant
                    x <= row.len(),
                    row@ == self@[y as int],
                    y < self@.len(),
                    forall|j: int, i: int|
                        0 <= j < self@.len() && 0 <= i < self@[j].len() ==> #[trigger] self@[j][i] <= max,
                    levels@.len() == x,
                    forall|i: int| 0 <= i < x ==> #[trigger] levels@[i] == linear_level(row@[i], max),
                decreases row.len() - x,
            {
                let count: u32 = row[x];
                assert(count == self@[y as int][x as int]);
                let level: u8 = if max == 0 {
                    0
                } else {
                    let scaled: u64 = 255 * (count as u64);
                    let share: u64 = scaled / (max as u64);
                    assert(share <= 255) by (nonlinear_arith)
                        requires
                            share == (255 * count) / (max as int),
                            0 <= count <= max,
                            max > 0,
                    ;
                    share as u8
                };
                levels.push(level);
                x = x + 1;
            }
            out.push(levels);
            y = y + 1;
        }
        out
    }

    /// Every counter of the grid, row after row.
    fn counts(&self) -> (flat: Vec<u32>)
        ensures
            forall|v: u32| flat@.contains(v) <==> grid_values(self@).contains(v),
    {
        let mut flat: Vec<u32> = Vec::new();
        let mut y: usize = 0;
        while y < self.cells.len()
            invariant
                y <= self.cells.len(),
                self@.len() == self.cells@.len(),
                forall|j: int, i: int| 0 <= j < y && 0 <= i < self@[j].len() ==> flat@.contains(#[trigger] self@[j][i]),
                forall|k: int| 0 <= k < flat@.len() ==> grid_values(self@).contains(#[trigger] flat@[k]),
            decreases self.cells.len() - y,
        {
            let row = &self.cells[y];
            assert(self@[y as int] == row@);
            let mut x: usize = 0;
            while x < row.len()
                invariant
                    x <= row.len(),
                    y < self@.len(),
                    row@ == self@[y as int],
                    forall|j: int, i: int|
                        0 <= j < y && 0 <= i < self@[j].len() ==> flat@.contains(#[trigger] self@[j][i]),
                    forall|i: int| 0 <= i < x ==> flat@.contains(#[trigger] row@[i]),
                    forall|k: int| 0 <= k < flat@.len() ==> grid_values(self@).contains(#[trigger] flat@[k]),
                decreases row.len() - x,
            {
                let ghost before = flat@;
                let c: u32 = row[x];
                flat.push(c);
                proof {
                    assert(self@[y as int][x as int] == c);
                    assert forall|j: int, i: int| 0 <= j < y && 0 <= i < self@[j].len() implies flat@.contains(
                        #[trigger] self@[j][i],
                    ) by {
                        lemma_push_contains(before, c, self@[j][i]);
                    }
                    assert forall|i: int| 0 <= i < x + 1 implies flat@.contains(#[trigger] row@[i]) by {
                        lemma_push_contains(before, c, row@[i]);
                    }
                    assert forall|k: int| 0 <= k < flat@.len() implies grid_values(self@).contains(
                        #[trigger] flat@[k],
                    ) by {
                        if k < before.len() {
                            assert(flat@[k] == before[k]);
                        }
                    }
                }
                x = x + 1;
            }
            y = y + 1;
        }
        proof {
            assert forall|v: u32| flat@.contains(v) <==> grid_values(self@).contains(v) by {
                if flat@.contains(v) {
                    let k = choose|k: int| 0 <= k < flat@.len() && flat@[k] == v;
                    assert(grid_values(self@).contains(flat@[k]));
                }
                if grid_values(self@).contains(v) {
                    let (j, i) = choose|j: int, i: int|
                        0 <= j < self@.len() && 0 <= i < self@[j].len() && #[trigger] self@[j][i] == v;
                    assert(flat@.contains(self@[j][i]));
                }
            }
        }
        flat
    }

    /// The display levels under the equalised policy.
    pub fn normalize_equalized(&self) -> (out: Vec<Vec<u8>>)
        ensures
            is_grid(grid_view(out), self.spec_width(), self.spec_height()),
            forall|y: int, x: int|
                0 <= y < self.spec_height() && 0 <= x < self.spec_width() ==> is_equalized_level(
                    #[trigger] grid_view(out)[y][x] as int,
                    self@,
                    self@[y][x],
                ),
    {
        proof {
            use_type_invariant(self);
        }
        let levels: Vec<u32> = distinct_sorted(self.counts());
        let mut curve: Vec<u8> = Vec::new();
        let mut i: usize = 0;
        while i < levels.len()
            invariant
                i <= levels.len(),
                curve@.len() == i,
                forall|k: int|
                    0 <= k < i ==> if levels@.len() == 1 {
                        #[trigger] curve@[k] == 0
                    } else {
                        is_sqrt_level(curve@[k] as int, k, levels@.len() - 1)
                    },
            decreases levels.len() - i,
        {
            let level: u8 = if levels.len() == 1 {
                0
            } else {
                sqrt_level(i, levels.len() - 1)
            };
            curve.push(level);
            i = i + 1;
        }
        let mut out: Vec<Vec<u8>> = Vec::new();
        let mut y: usize = 0;
        while y < self.cells.len()
            invariant
                self.wf(),
                y <= self.cells.len(),
                self.cells@.len() == self.height,
                strictly_ascending(levels@),
                forall|v: u32| levels@.contains(v) <==> grid_values(self@).contains(v),
                curve@.len() == levels@.len(),
                forall|k: int|
                    0 <= k < curve@.len() ==> if levels@.len() == 1 {
                        #[trigger] curve@[k] == 0
                    } else {
                        is_sqrt_level(curve@[k] as int, k, levels@.len() - 1)
                    },
                out@.len() == y,
                forall|j: int| 0 <= j < y ==> (#[trigger] out@[j])@.len() == self.width,
                forall|j: int, i: int|
                    0 <= j < y && 0 <= i < self.width ==> is_equalized_level(
                        #[trigger] out@[j]@[i] as int,
                        self@,
                        self@[j][i],
                    ),
            decreases self.cells.len() - y,
        {
            let row = &self.cells[y];
            assert(self@[y as int] == row@);
            let mut shown: Vec<u8> = Vec::new();
            let mut x: usize = 0;
            while x < row.len()
                invariant
                    x <= row.len(),
                    y < self@.len(),
                    row@ == self@[y as int],
                    strictly_ascending(levels@),
                    forall|v: u32| levels@.contains(v) <==> grid_values(self@).contains(v),
                    curve@.len() == levels@.len(),
                    forall|k: int|
                        0 <= k < curve@.len() ==> if levels@.len() == 1 {
                            #[trigger] curve@[k] == 0
                        } else {
                            is_sqrt_level(curve@[k] as int, k, levels@.len() - 1)
                        },
                    shown@.len() == x,
                    forall|i: int|
                        0 <= i < x ==> is_equalized_level(#[trigger] shown@[i] as int, self@, row@[i]),
                decreases row.len() - x,
            {
                let count: u32 = row[x];
                proof {
                    assert(self@[y as int][x as int] == count);
                    assert(grid_values(self@).contains(count));
                }
                let at: usize = level_index(&levels, count);
                proof {
                    lemma_levels_are_ranks(self@, levels@);
                    assert(rank_of(self@, levels@[at as int]) == at);
                }
                shown.push(curve[at]);
                x = x + 1;
            }
            out.push(shown);
            y = y + 1;
        }
        out
    }

    /// The display levels under `policy`.
    pub fn normalize(&self, policy: Normalization) -> (out: Vec<Vec<u8>>)
        ensures
            is_grid(grid_view(out), self.spec_width(), self.spec_height()),
            forall|y: int, x: int|
                0 <= y < self.spec_height() && 0 <= x < self.spec_width() ==> match policy {
                    Normalization::Linear => #[trigger] grid_view(out)[y][x] == linear_level(
                        self@[y][x],
                        grid_max(self@),
                    ),
                    Normalization::Equalized => is_equalized_level(grid_view(out)[y][x] as int, self@, self@[y][x]),
                },
    {
        match policy {
            Normalization::Linear => self.normalize_linear(),
            Normalization::Equalized => self.normalize_equalized(),
        }
    }
}

/// The display level of a count under the linear policy: its share of the
/// largest count, scaled to 0..=255; 0 throughout when the largest count is 0.
pub open spec fn linear_level(count: u32, max: u32) -> int {
    if max == 0 {
        0
    } else {
        (255 * count) / (max as int)
    }
}

/// A grid whose only non-zero cell is `(x0, y0)` normalises linearly to 255
/// in that cell and 0 in all others.
pub proof fn lemma_single_cell_linear(g: Seq<Seq<u32>>, x0: int, y0: int)
    requires
        0 <= y0 < g.len(),
        0 <= x0 < g[y0].len(),
        g[y0][x0] > 0,
        forall|y: int, x: int|
            0 <= y < g.len() && 0 <= x < g[y].len() && !(y == y0 && x == x0) ==> #[trigger] g[y][x] == 0,
    ensures
        grid_max(g) == g[y0][x0],
        linear_level(g[y0][x0], grid_max(g)) == 255,
        forall|y: int, x: int|
            0 <= y < g.len() && 0 <= x < g[y].len() && !(y == y0 && x == x0) ==> linear_level(
                #[trigger] g[y][x],
                grid_max(g),
            ) == 0,
{
    let m = g[y0][x0];
    assert forall|y: int, x: int| 0 <= y < g.len() && 0 <= x < g[y].len() implies #[trigger] g[y][x] <= m by {
        if !(y == y0 && x == x0) {
            assert(g[y][x] == 0);
        }
    }
    lemma_grid_max_unique(g, m);
    assert((255 * m) / (m as int) == 255) by (nonlinear_arith)
        requires
            m > 0,
    ;
    assert((255 * 0u32) / (m as int) == 0) by (nonlinear_arith)
        requires
            m > 0,
    ;
}

/// A grid without a positive count normalises linearly to 0 in every cell.
pub proof fn lemma_empty_grid_linear(g: Seq<Seq<u32>>)
    requires
        grid_max(g) == 0,
    ensures
        forall|y: int, x: int|
            0 <= y < g.len() && 0 <= x < g[y].len() ==> linear_level(#[trigger] g[y][x], grid_max(g)) == 0,
{
}

/// The counts that occur in the grid.
pub open spec fn grid_values(g: Seq<Seq<u32>>) -> Set<u32> {
    Set::new(
        |v: u32| exists|y: int, x: int| 0 <= y < g.len() && 0 <= x < g[y].len() && #[trigger] g[y][x] == v,
    )
}

/// The rank of a count: how many distinct counts of the grid are smaller.
pub open spec fn rank_of(g: Seq<Seq<u32>>, count: u32) -> nat {
    values_below(grid_values(g), count).len()
}

/// The rank of the largest count.
pub open spec fn top_rank(g: Seq<Seq<u32>>) -> nat {
    rank_of(g, grid_max(g))
}

/// Whether `level` is the display level of `count` under the equalised
/// policy: `255 * sqrt(rank / top_rank)` rounded down, and 0 throughout
/// when all counts are equal.
pub open spec fn is_equalized_level(level: int, g: Seq<Seq<u32>>, count: u32) -> bool {
    if top_rank(g) == 0 {
        level == 0
    } else {
        is_sqrt_level(level, rank_of(g, count) as int, top_rank(g) as int)
    }
}

/// In the ascending sequence of the distinct counts of a grid, each count
/// stands at its rank, and the last one is the largest count.
pub proof fn lemma_levels_are_ranks(g: Seq<Seq<u32>>, levels: Seq<u32>)
    requires
        strictly_ascending(levels),
        forall|v: u32| levels.contains(v) <==> grid_values(g).contains(v),
        levels.len() > 0,
    ensures
        levels.last() == grid_max(g),
        top_rank(g) == levels.len() - 1,
        forall|i: int| 0 <= i < levels.len() ==> rank_of(g, #[trigger] levels[i]) == i,
{
    assert(levels.to_set() =~= grid_values(g));
    assert forall|i: int| 0 <= i < levels.len() implies rank_of(g, #[trigger] levels[i]) == i by {
        lemma_index_is_rank(levels, i);
    }
    lemma_grid_max(g);
    let last = levels.last();
    assert(levels.contains(last));
    assert(grid_values(g).contains(last));
    let (y, x) = choose|y: int, x: int| 0 <= y < g.len() && 0 <= x < g[y].len() && #[trigger] g[y][x] == last;
    assert(g[y][x] <= grid_max(g));
    if grid_max(g) > 0 {
        let (my, mx) = choose|y: int, x: int|
            0 <= y < g.len() && 0 <= x < g[y].len() && #[trigger] g[y][x] == grid_max(g);
        assert(grid_values(g).contains(g[my][mx]));
    }
    assert(grid_values(g).contains(grid_max(g)));
    assert(levels.contains(grid_max(g)));
    let j = choose|j: int| 0 <= j < levels.len() && levels[j] == grid_max(g);
    if j < levels.len() - 1 {
        assert(levels[j] < levels[levels.len() - 1]);
    }
}

/// Adds one visit to the counter at row `y`, column `x`.
fn bump_cell(cells: &mut Vec<Vec<u32>>, x: usize, y: usize)
    requires
        y < old(cells)@.len(),
        x < old(cells)@[y as int]@.len(),
    ensures
        final(cells)@.len() == old(cells)@.len(),
        final(cells)@[y as int]@ == old(cells)@[y as int]@.update(
            x as int,
            bumped(old(cells)@[y as int]@[x as int]),
        ),
        forall|j: int| 0 <= j < old(cells)@.len() && j != y ==> #[trigger] final(cells)@[j] == old(cells)@[j],
    no_unwind
{
    let count: u32 = cells[y][x];
    let next: u32 = if count < u32::MAX {
        count + 1
    } else {
        count
    };
    cells[y][x] = next;
}

/// The grid of `width` by `height` counters that are all zero.
pub open spec fn empty_grid(width: int, height: int) -> Seq<Seq<u32>> {
    Seq::new(height as nat, |y: int| Seq::new(width as nat, |x: int| 0u32))
}

/// A histogram of `width` by `height` counters, all zero. A grid without
/// cells is refused.
pub fn init_hist(width: u32, height: u32) -> (r: Result<Histogram, ConfigError>)
    ensures
        r is Ok <==> width > 0 && height > 0,
        match r {
            Ok(hist) => {
                &&& hist.wf()
                &&& hist.spec_width() == width
                &&& hist.spec_height() == height
                &&& hist@ == empty_grid(width as int, height as int)
            },
            Err(e) => e == ConfigError::EmptyGrid,
        },
{
    if width == 0 || height == 0 {
        return Err(ConfigError::EmptyGrid);
    }
    let mut cells: Vec<Vec<u32>> = Vec::new();
    let mut y: u32 = 0;
    while y < height
        invariant
            y <= height,
            cells@.len() == y,
            forall|j: int| 0 <= j < y ==> (#[trigger] cells@[j])@.len() == width,
            forall|j: int, i: int| 0 <= j < y && 0 <= i < width ==> #[trigger] cells@[j]@[i] == 0,
        decreases height - y,
    {
        let mut row: Vec<u32> = Vec::new();
        let mut x: u32 = 0;
        while x < width
            invariant
                x <= width,
                row@.len() == x,
                forall|i: int| 0 <= i < x ==> #[trigger] row@[i] == 0,
            decreases width - x,
        {
            row.push(0);
            x = x + 1;
        }
        cells.push(row);
        y = y + 1;
    }
    let hist = Histogram { width, height, cells };
    proof {
        let zero = empty_grid(width as int, height as int);
        assert forall|y: int| 0 <= y < hist@.len() implies #[trigger] hist@[y] =~= zero[y] by {
            assert forall|x: int| 0 <= x < hist@[y].len() implies hist@[y][x] == zero[y][x] by {
                assert(hist.cells@[y]@[x] == 0);
            }
        }
        assert(hist@ =~= zero);
    }
    Ok(hist)
}

} // verus!
