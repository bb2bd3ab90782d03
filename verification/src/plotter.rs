//! Evaluating a function of the pixel coordinates over a grid, with the
//! rows shared out among workers and put together by their row numbers.

use vstd::prelude::*;
use crate::error::ConfigError;
use crate::grid::grid_view;
use crate::parallel::{lemma_spans_ascend, map_with_workers, spans_cover, split_evenly, Span};

verus! {

/// A finished row together with the number of the row that it is.
#[derive(Debug)]
pub struct TaggedRow<T> {
    pub index: usize,
    pub cells: Vec<T>,
}

/// Evaluates a function over a grid with a fixed number of workers.
#[derive(Clone, Copy, Debug, PartialEq, Eq, Structural)]
pub struct ParallelPlotter {
    pub workers: usize,
}

/// Whether `f` may be called at every cell of the grid.
pub open spec fn callable<T, F: Fn(usize, usize) -> T>(f: &F, width: usize, height: usize) -> bool {
    forall|x: usize, y: usize| x < width && y < height ==> f.requires((x, y))
}

/// Whether `row` holds, cell by cell, what `f` returns along row `y`.
pub open spec fn row_ok<T, F: Fn(usize, usize) -> T>(f: &F, width: usize, y: usize, row: Seq<T>) -> bool {
    &&& row.len() == width
    &&& forall|x: int| 0 <= x < width ==> f.ensures((x as usize, y), #[trigger] row[x])
}

/// Whether `grid` holds, cell by cell, what `f` returns over the grid.
pub open spec fn plot_ok<T, F: Fn(usize, usize) -> T>(f: &F, width: usize, height: usize, grid: Seq<Seq<T>>) -> bool {
    &&& grid.len() == height
    &&& forall|y: int| 0 <= y < height ==> row_ok(f, width, y as usize, #[trigger] grid[y])
}

/// Whether `rows` holds the rows of `block` in order, each with its number.
pub open spec fn block_ok<T, F: Fn(usize, usize) -> T>(f: &F, width: usize, block: Span, rows: Seq<TaggedRow<T>>) -> bool {
    &&& rows.len() == block.end - block.start
    &&& forall|i: int|
        0 <= i < rows.len() ==> (#[trigger] rows[i]).index == block.start + i && row_ok(
            f,
            width,
            rows[i].index,
            rows[i].cells@,
        )
}

/// Whether one of `rows` is tagged `y`.
pub open spec fn has_tag<T>(rows: Seq<TaggedRow<T>>, y: int) -> bool {
    exists|i: int| 0 <= i < rows.len() && (#[trigger] rows[i]).index == y
}

/// Whether each row number below `height` is the tag of exactly one of `rows`.
pub open spec fn tags_cover<T>(rows: Seq<TaggedRow<T>>, height: int) -> bool {
    &&& forall|i: int| 0 <= i < rows.len() ==> (#[trigger] rows[i]).index < height
    &&& forall|i: int, j: int| 0 <= i < j < rows.len() ==> (#[trigger] rows[i]).index != (#[trigger] rows[j]).index
    &&& forall|y: int| 0 <= y < height ==> #[trigger] has_tag(rows, y)
}

/// Two grids that both hold what a function returns over the grid are
/// equal, provided the function returns one value for each cell.
pub proof fn lemma_plots_agree<T, F: Fn(usize, usize) -> T>(f: &F, width: usize, height: usize, a: Seq<Seq<T>>, b: Seq<Seq<T>>)
    requires
        plot_ok(f, width, height, a),
        plot_ok(f, width, height, b),
        forall|args: (usize, usize), r1: T, r2: T| f.ensures(args, r1) && f.ensures(args, r2) ==> r1 == r2,
    ensures
        a == b,
{
    assert forall|y: int| 0 <= y < height implies #[trigger] a[y] == b[y] by {
        assert(row_ok(f, width, y as usize, a[y]));
        assert(row_ok(f, width, y as usize, b[y]));
        assert forall|x: int| 0 <= x < width implies #[trigger] a[y][x] == b[y][x] by {
            assert(f.ensures((x as usize, y as usize), a[y][x]));
            assert(f.ensures((x as usize, y as usize), b[y][x]));
        }
        assert(a[y] =~= b[y]);
    }
    assert(a =~= b);
}

/// One row of the grid: `f` at each cell of row `y`.
pub fn compute_row<T, F: Fn(usize, usize) -> T>(f: &F, width: usize, y: usize) -> (row: TaggedRow<T>)
    requires
        width > 0,
        forall|x: usize| x < width ==> f.requires((x, y)),
    ensures
        row.index == y,
        row_ok(f, width, y, row.cells@),
{
    let mut cells: Vec<T> = Vec::new();
    let mut x: usize = 0;
    while x < width
        invariant
            x <= width,
            cells@.len() == x,
            forall|i: usize| i < width ==> f.requires((i, y)),
            forall|i: int| 0 <= i < x ==> f.ensures((i as usize, y), #[trigger] cells@[i]),
        decreases width - x,
    {
        let value = f(x, y);
        cells.push(value);
        x = x + 1;
    }
    TaggedRow { index: y, cells }
}

/// The rows of one block, each tagged with its number: the work of one worker.
pub fn compute_block<T, F: Fn(usize, usize) -> T>(f: &F, width: usize, block: &Span) -> (rows: Vec<TaggedRow<T>>)
    requires
        width > 0,
        block.start <= block.end,
        forall|x: usize, y: usize| x < width && block.start <= y < block.end ==> f.requires((x, y)),
    ensures
        block_ok(f, width, *block, rows@),
{
    let mut rows: Vec<TaggedRow<T>> = Vec::new();
    let mut y: usize = block.start;
    while y < block.end
        invariant
            block.start <= y <= block.end,
            rows@.len() == y - block.start,
            width > 0,
            forall|x: usize, y: usize| x < width && block.start <= y < block.end ==> f.requires((x, y)),
            forall|i: int|
                0 <= i < rows@.len() ==> (#[trigger] rows@[i]).index == block.start + i && row_ok(
                    f,
                    width,
                    rows@[i].index,
                    rows@[i].cells@,
                ),
        decreases block.end - y,
    {
        let row = compute_row(f, width, y);
        rows.push(row);
        y = y + 1;
    }
    rows
}

/// The rows of the first `n` parts, one part after the other.
pub open spec fn joined<T>(parts: Seq<Vec<TaggedRow<T>>>, n: nat) -> Seq<TaggedRow<T>>
    decreases n,
{
    if n == 0 {
        Seq::empty()
    } else {
        joined(parts, (n - 1) as nat) + parts[n - 1]@
    }
}

/// The results of blocks that cover the rows, joined in the order of the
/// blocks, hold row `p` at place `p`.
pub proof fn lemma_joined_blocks<T, F: Fn(usize, usize) -> T>(f: &F, width: usize, height: int, blocks: Seq<Span>, parts: Seq<Vec<TaggedRow<T>>>, n: nat)
    requires
        spans_cover(blocks, height),
        parts.len() == blocks.len(),
        forall|i: int| 0 <= i < blocks.len() ==> block_ok(f, width, blocks[i], (#[trigger] parts[i])@),
        n <= blocks.len(),
    ensures
        joined(parts, n).len() == if n == 0 {
            0
        } else {
            blocks[n - 1].end as int
        },
        forall|p: int|
            0 <= p < joined(parts, n).len() ==> (#[trigger] joined(parts, n)[p]).index == p && row_ok(
                f,
                width,
                p as usize,
                joined(parts, n)[p].cells@,
            ),
    decreases n,
{
    if n > 0 {
        lemma_joined_blocks(f, width, height, blocks, parts, (n - 1) as nat);
        let before = joined(parts, (n - 1) as nat);
        let block = blocks[n - 1];
        assert(block_ok(f, width, block, parts[n - 1]@));
        if n > 1 {
            assert(blocks[n - 2].end == blocks[n - 1].start);
        }
        assert(before.len() == block.start);
        assert forall|p: int| 0 <= p < joined(parts, n).len() implies (#[trigger] joined(parts, n)[p]).index == p
            && row_ok(f, width, p as usize, joined(parts, n)[p].cells@) by {
            if p < before.len() {
                assert(joined(parts, n)[p] == before[p]);
            } else {
                assert(joined(parts, n)[p] == parts[n - 1]@[p - before.len()]);
            }
        }
    }
}

/// Joins the results of the workers into one sequence of tagged rows.
pub fn gather<T>(parts: Vec<Vec<TaggedRow<T>>>) -> (rows: Vec<TaggedRow<T>>)
    ensures
        rows@ == joined(parts@, parts@.len()),
{
    let mut parts = parts;
    let ghost all = parts@;
    let mut rows: Vec<TaggedRow<T>> = Vec::new();
    let mut i: usize = 0;
    while i < parts.len()
        invariant
            i <= parts@.len(),
            parts@.len() == all.len(),
            forall|k: int| i <= k < all.len() ==> parts@[k] == all[k],
            rows@ == joined(all, i as nat),
        decreases parts@.len() - i,
    {
        let mut part: Vec<TaggedRow<T>> = Vec::new();
        core::mem::swap(&mut parts[i], &mut part);
        rows.append(&mut part);
        i = i + 1;
    }
    rows
}

/// Puts rows in place by their tags, in whatever order they arrive. The
/// grid is returned when it has rows and each row number below `height`
/// is the tag of exactly one row; row `y` of the grid is then the row
/// tagged `y`.
pub fn assemble<T>(height: usize, rows: Vec<TaggedRow<T>>) -> (r: Option<Vec<Vec<T>>>)
    ensures
        r is Some <==> height > 0 && tags_cover(rows@, height as int),
        r matches Some(grid) ==> grid@.len() == height && forall|i: int|
            0 <= i < rows@.len() ==> grid_view(grid)[(#[trigger] rows@[i]).index as int] == rows@[i].cells@,
{
    if height == 0 {
        return None;
    }
    let ghost all = rows@;
    let mut pending = rows;
    let mut slots: Vec<Option<Vec<T>>> = Vec::new();
    let mut made: usize = 0;
    while made < height
        invariant
            made <= height,
            slots@.len() == made,
            forall|y: int| 0 <= y < made ==> (#[trigger] slots@[y]) is None,
        decreases height - made,
    {
        slots.push(None);
        made = made + 1;
    }
    while pending.len() > 0
        invariant
            all == rows@,
            pending@.len() <= all.len(),
            pending@ == all.take(pending@.len() as int),
            slots@.len() == height,
            forall|i: int| pending@.len() <= i < all.len() ==> (#[trigger] all[i]).index < height,
            forall|i: int|
                pending@.len() <= i < all.len() ==> slots@[(#[trigger] all[i]).index as int] == Some(all[i].cells),
            forall|i: int, j: int|
                pending@.len() <= i < j < all.len() ==> (#[trigger] all[i]).index != (#[trigger] all[j]).index,
            forall|y: int|
                0 <= y < height && (#[trigger] slots@[y]) is Some ==> exists|i: int|
                    pending@.len() <= i < all.len() && (#[trigger] all[i]).index == y,
        decreases pending@.len(),
    {
        let ghost at = pending@.len() - 1;
        let row = pending.pop().unwrap();
        assert(row == all[at]);
        if row.index >= height {
            return None;
        }
        if slots[row.index].is_some() {
            proof {
                let other = choose|i: int| at < i < all.len() && (#[trigger] all[i]).index == row.index;
                assert(all[at].index == all[other].index);
            }
            return None;
        }
        let ghost before = slots@;
        slots[row.index] = Some(row.cells);
        proof {
            assert forall|i: int| at <= i < all.len() implies slots@[(#[trigger] all[i]).index as int] == Some(
                all[i].cells,
            ) by {
                if i > at {
                    assert(before[all[i].index as int] == Some(all[i].cells));
                    assert(all[i].index != row.index);
                }
            }
            assert forall|i: int, j: int| at <= i < j < all.len() implies (#[trigger] all[i]).index != (
            #[trigger] all[j]).index by {
                if i == at {
                    assert(before[all[j].index as int] is Some);
                }
            }
            assert forall|y: int| 0 <= y < height && (#[trigger] slots@[y]) is Some implies exists|i: int|
                at <= i < all.len() && (#[trigger] all[i]).index == y by {
                if y == row.index {
                    assert(all[at].index == y);
                } else {
                    assert(before[y] is Some);
                    let i = choose|i: int| at < i < all.len() && (#[trigger] all[i]).index == y;
                    assert(all[i].index == y);
                }
            }
            assert(pending@ =~= all.take(at));
        }
    }
    let ghost filled = slots@;
    let mut grid: Vec<Vec<T>> = Vec::new();
    let mut y: usize = 0;
    while y < height
        invariant
            y <= height,
            all == rows@,
            slots@.len() == height,
            filled.len() == height,
            grid@.len() == y,
            forall|k: int| y <= k < height ==> slots@[k] == filled[k],
            forall|k: int| 0 <= k < y ==> filled[k] == Some(#[trigger] grid@[k]),
            forall|i: int| 0 <= i < all.len() ==> (#[trigger] all[i]).index < height,
            forall|i: int| 0 <= i < all.len() ==> filled[(#[trigger] all[i]).index as int] == Some(all[i].cells),
            forall|i: int, j: int| 0 <= i < j < all.len() ==> (#[trigger] all[i]).index != (#[trigger] all[j]).index,
            forall|k: int|
                0 <= k < height && (#[trigger] filled[k]) is Some ==> exists|i: int|
                    0 <= i < all.len() && (#[trigger] all[i]).index == k,
        decreases height - y,
    {
        let slot = slots[y].take();
        match slot {
            Some(row) => {
                grid.push(row);
            },
            None => {
                proof {
                    assert(filled[y as int] is None);
                    if has_tag(all, y as int) {
                        let i = choose|i: int| 0 <= i < all.len() && (#[trigger] all[i]).index == y;
                        assert(filled[all[i].index as int] == Some(all[i].cells));
                    }
                }
                return None;
            },
        }
        y = y + 1;
    }
    proof {
        assert forall|k: int| 0 <= k < height implies #[trigger] has_tag(all, k) by {
            assert(filled[k] == Some(grid@[k]));
        }
        assert forall|i: int| 0 <= i < all.len() implies grid_view(grid)[(#[trigger] all[i]).index as int]
            == all[i].cells@ by {
            let k = all[i].index as int;
            assert(filled[k] == Some(grid@[k]));
        }
    }
    Some(grid)
}

impl ParallelPlotter {
    /// A plotter with `workers` workers; fewer than two work in turn on
    /// the calling thread.
    pub fn new(workers: usize) -> (p: ParallelPlotter)
        ensures
            p.workers == workers,
    {
        ParallelPlotter { workers }
    }

    /// The grid of what `f` returns at each cell, row `y` of the grid
    /// holding the cells `(0, y)` to `(width - 1, y)`. The rows are shared
    /// out among the workers and put in place by their numbers, so the
    /// grid does not depend on the number of workers. A grid without
    /// cells is refused before `f` is called.
    pub fn plot<T: Send, F: Fn(usize, usize) -> T + Sync>(&self, width: usize, height: usize, f: &F) -> (r: Result<
        Vec<Vec<T>>,
        ConfigError,
    >)
        requires
            callable(f, width, height),
        ensures
            r is Ok <==> width > 0 && height > 0,
            match r {
                Ok(grid) => plot_ok(f, width, height, grid_view(grid)),
                Err(e) => e == ConfigError::EmptyGrid,
            },
    {
        if width == 0 || height == 0 {
            return Err(ConfigError::EmptyGrid);
        }
        let blocks = split_evenly(height, self.workers);
        proof {
            assert forall|i: int| 0 <= i < blocks@.len() implies (#[trigger] blocks@[i]).start <= blocks@[i].end
                <= height by {
                lemma_spans_ascend(blocks@, height as int, blocks@.len() - 1);
            }
        }
        let per_block = |block: &Span| -> (rows: Vec<TaggedRow<T>>)
            requires
                block.start <= block.end <= height,
            ensures
                block_ok(f, width, *block, rows@),
            { compute_block(f, width, block) };
        let parts = map_with_workers(&blocks, &per_block, self.workers);
        proof {
            assert forall|i: int| 0 <= i < blocks@.len() implies block_ok(
                f,
                width,
                blocks@[i],
                (#[trigger] parts@[i])@,
            ) by {
                assert(per_block.ensures((&blocks@[i],), parts@[i]));
            }
        }
        let rows = gather(parts);
        proof {
            lemma_joined_blocks(f, width, height as int, blocks@, parts@, parts@.len());
            assert(rows@.len() == height);
            assert forall|y: int| 0 <= y < height implies #[trigger] has_tag(rows@, y) by {
                assert(rows@[y].index == y);
            }
            assert(tags_cover(rows@, height as int));
        }
        match assemble(height, rows) {
            Some(grid) => {
                proof {
                    assert forall|y: int| 0 <= y < height implies row_ok(
                        f,
                        width,
                        y as usize,
                        #[trigger] grid_view(grid)[y],
                    ) by {
                        assert(rows@[y].index == y);
                        assert(grid_view(grid)[rows@[y].index as int] == rows@[y].cells@);
                    }
                }
                Ok(grid)
            },
            None => Err(ConfigError::EmptyGrid),
        }
    }
}

/// Rows that cover the grid are put together into the same grid in
/// whatever order they arrive: where `second` holds the rows of `first` in
/// another order, the grid made of `second` is the grid made of `first`.
pub proof fn lemma_arrival_order_is_irrelevant<T>(
    height: int,
    first: Seq<TaggedRow<T>>,
    second: Seq<TaggedRow<T>>,
    a: Seq<Seq<T>>,
    b: Seq<Seq<T>>,
)
    requires
        tags_cover(second, height),
        forall|j: int| 0 <= j < second.len() ==> exists|i: int| 0 <= i < first.len() && first[i] == #[trigger] second[j],
        a.len() == height,
        b.len() == height,
        forall|i: int| 0 <= i < first.len() ==> a[(#[trigger] first[i]).index as int] == first[i].cells@,
        forall|j: int| 0 <= j < second.len() ==> b[(#[trigger] second[j]).index as int] == second[j].cells@,
    ensures
        a == b,
{
    assert forall|y: int| 0 <= y < height implies #[trigger] a[y] == b[y] by {
        assert(has_tag(second, y));
        let j = choose|j: int| 0 <= j < second.len() && (#[trigger] second[j]).index == y;
        let i = choose|i: int| 0 <= i < first.len() && first[i] == second[j];
        assert(a[first[i].index as int] == first[i].cells@);
        assert(b[second[j].index as int] == second[j].cells@);
    }
    assert(a =~= b);
}

} // verus!
