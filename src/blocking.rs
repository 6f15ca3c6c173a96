//! A uniform grid of `n_blocks × n_blocks` cells over the vertices.
//!
//! Each vertex is placed in at most one cell (a vertex whose position cannot
//! be placed, such as one with a non-finite coordinate, is in none). A query
//! for a cell returns the vertices of that cell and of the up to eight cells
//! around it, which narrows the candidates of the repulsion term.
use vstd::prelude::*;

verus! {

/// The cell of a vertex: `Some((column, row))`, or `None` for a vertex
/// that lies in no cell.
pub type Cell = Option<(usize, usize)>;

/// The vertices among `cells` that lie in cell `(x, y)`, in increasing order.
pub open spec fn members(cells: Seq<Cell>, x: usize, y: usize) -> Seq<usize>
    decreases cells.len(),
{
    if cells.len() == 0 {
        Seq::empty()
    } else {
        let rest = members(cells.drop_last(), x, y);
        if cells.last() == Some((x, y)) {
            rest.push((cells.len() - 1) as usize)
        } else {
            rest
        }
    }
}

/// The grid that `cells` describes: the entry at `[x][y]` holds the members
/// of cell `(x, y)`.
pub open spec fn grid_of(cells: Seq<Cell>, n_blocks: usize) -> Seq<Seq<Seq<usize>>> {
    Seq::new(
        n_blocks as nat,
        |x: int| Seq::new(n_blocks as nat, |y: int| members(cells, x as usize, y as usize)),
    )
}

/// Cell `c` lies in a grid of `n_blocks × n_blocks` cells.
pub open spec fn cell_fits(c: Cell, n_blocks: usize) -> bool {
    match c {
        Some((x, y)) => x < n_blocks && y < n_blocks,
        None => true,
    }
}

/// Every cell of `cells` lies in a grid of `n_blocks × n_blocks` cells.
pub open spec fn cells_fit(cells: Seq<Cell>, n_blocks: usize) -> bool {
    forall|i: int| 0 <= i < cells.len() ==> #[trigger] cell_fits(cells[i], n_blocks)
}

/// The cells around `(x, y)` in a grid of side `n`, in the order in which a
/// query visits them: the cell itself; the cells of column `x - 1` (row
/// `y - 1`, row `y + 1`, row `y`); those of column `x + 1` in the same order;
/// then rows `y - 1` and `y + 1` of column `x`. Cells outside the grid are
/// left out.
pub open spec fn neighbourhood(x: usize, y: usize, n: usize) -> Seq<(usize, usize)> {
    let up = y > 0;
    let down = y + 1 < n;
    let side = |c: usize|
        (if up {
            seq![(c, (y - 1) as usize)]
        } else {
            Seq::empty()
        }) + (if down {
            seq![(c, (y + 1) as usize)]
        } else {
            Seq::empty()
        }) + seq![(c, y)];
    let left = if x > 0 {
        side((x - 1) as usize)
    } else {
        Seq::empty()
    };
    let right = if x + 1 < n {
        side((x + 1) as usize)
    } else {
        Seq::empty()
    };
    let middle = (if up {
        seq![(x, (y - 1) as usize)]
    } else {
        Seq::empty()
    }) + (if down {
        seq![(x, (y + 1) as usize)]
    } else {
        Seq::empty()
    });
    seq![(x, y)] + left + right + middle
}

/// The contents of the cells `cs` of `grid`, one cell after the other.
pub open spec fn gather(grid: Seq<Seq<Seq<usize>>>, cs: Seq<(usize, usize)>) -> Seq<usize>
    decreases cs.len(),
{
    if cs.len() == 0 {
        Seq::empty()
    } else {
        gather(grid, cs.drop_last()) + grid[cs.last().0 as int][cs.last().1 as int]
    }
}

/// Cell `d` is cell `(x, y)` or one of the eight cells around it.
pub open spec fn adjacent(d: (usize, usize), x: usize, y: usize) -> bool {
    x <= d.0 + 1 && d.0 <= x + 1 && y <= d.1 + 1 && d.1 <= y + 1
}

/// The members of a cell are exactly the vertices placed in it, in
/// increasing order.
proof fn lemma_members(cells: Seq<Cell>, x: usize, y: usize)
    requires
        cells.len() <= usize::MAX,
    ensures
        forall|v: usize| #[trigger]
            members(cells, x, y).contains(v) <==> v < cells.len() && cells[v as int] == Some(
                (x, y),
            ),
        forall|i: int, j: int|
            0 <= i < j < members(cells, x, y).len() ==> members(cells, x, y)[i] < members(
                cells,
                x,
                y,
            )[j],
        forall|i: int|
            0 <= i < members(cells, x, y).len() ==> members(cells, x, y)[i] < cells.len(),
    decreases cells.len(),
{
    if cells.len() > 0 {
        let init = cells.drop_last();
        lemma_members(init, x, y);
        let m0 = members(init, x, y);
        let m = members(cells, x, y);
        let last = (cells.len() - 1) as usize;
        assert forall|v: usize| #[trigger]
            m.contains(v) <==> v < cells.len() && cells[v as int] == Some((x, y)) by {
            if v < init.len() {
                assert(init[v as int] == cells[v as int]);
            }
            if cells.last() == Some((x, y)) {
                assert(m == m0.push(last));
                if m.contains(v) && v != last {
                    let k = choose|k: int| 0 <= k < m.len() && m[k] == v;
                    assert(m0[k] == v);
                }
                if m0.contains(v) {
                    let k = choose|k: int| 0 <= k < m0.len() && m0[k] == v;
                    assert(m[k] == v);
                }
                assert(m[m.len() - 1] == last);
            }
        }
        if cells.last() == Some((x, y)) {
            assert forall|i: int, j: int| 0 <= i < j < m.len() implies m[i] < m[j] by {
                assert(m[i] == m0[i]);
                if j < m0.len() {
                    assert(m[j] == m0[j]);
                }
            }
        }
    }
}

/// A vertex is gathered from cells `cs` exactly when it is a member of one
/// of them.
proof fn lemma_gather(cells: Seq<Cell>, n: usize, cs: Seq<(usize, usize)>)
    requires
        cells.len() <= usize::MAX,
        forall|k: int| 0 <= k < cs.len() ==> (#[trigger] cs[k]).0 < n && cs[k].1 < n,
        cs.no_duplicates(),
    ensures
        forall|v: usize| #[trigger]
            gather(grid_of(cells, n), cs).contains(v) <==> v < cells.len() && cells[v as int]
                is Some && cs.contains(cells[v as int]->0),
        gather(grid_of(cells, n), cs).no_duplicates(),
    decreases cs.len(),
{
    if cs.len() > 0 {
        let init = cs.drop_last();
        let c = cs.last();
        let g = grid_of(cells, n);
        lemma_gather(cells, n, init);
        lemma_members(cells, c.0, c.1);
        let m = members(cells, c.0, c.1);
        assert(g[c.0 as int][c.1 as int] == m);
        let a = gather(g, init);
        assert(gather(g, cs) == a + m);
        assert forall|v: usize| #[trigger]
            gather(g, cs).contains(v) <==> v < cells.len() && cells[v as int] is Some
                && cs.contains(cells[v as int]->0) by {
            if gather(g, cs).contains(v) {
                let k = choose|k: int| 0 <= k < (a + m).len() && (a + m)[k] == v;
                if k < a.len() {
                    assert(a.contains(v)) by { assert(a[k] == v); }
                    let i = choose|i: int| 0 <= i < init.len() && init[i] == cells[v as int]->0;
                    assert(cs[i] == init[i]);
                } else {
                    assert(m.contains(v)) by { assert(m[k - a.len()] == v); }
                    assert(cs[cs.len() - 1] == c);
                }
            }
            if v < cells.len() && cells[v as int] is Some && cs.contains(cells[v as int]->0) {
                let i = choose|i: int| 0 <= i < cs.len() && cs[i] == cells[v as int]->0;
                if i < cs.len() - 1 {
                    assert(init[i] == cs[i]);
                    assert(a.contains(v));
                    let k = choose|k: int| 0 <= k < a.len() && a[k] == v;
                    assert((a + m)[k] == v);
                } else {
                    assert(m.contains(v));
                    let k = choose|k: int| 0 <= k < m.len() && m[k] == v;
                    assert((a + m)[a.len() + k] == v);
                }
            }
        }
        assert forall|i: int, j: int|
            0 <= i < j < (a + m).len() implies (a + m)[i] != (a + m)[j] by {
            if j < a.len() {
            } else if i >= a.len() {
                assert(m[i - a.len()] < m[j - a.len()]);
            } else {
                let v = (a + m)[i];
                if v == (a + m)[j] {
                    assert(a.contains(v)) by { assert(a[i] == v); }
                    assert(m.contains(v)) by { assert(m[j - a.len()] == v); }
                    let q = choose|q: int| 0 <= q < init.len() && init[q] == cells[v as int]->0;
                    assert(cs[q] == cs[cs.len() - 1]);
                }
            }
        }
    }
}

/// A query at cell `(x, y)` returns every vertex whose cell is `(x, y)` or
/// one of the cells around it, each once, and no other vertex.
pub proof fn lemma_nearby_exact(cells: Seq<Cell>, n_blocks: usize, x: usize, y: usize)
    requires
        cells.len() <= usize::MAX,
        cells_fit(cells, n_blocks),
        x < n_blocks,
        y < n_blocks,
    ensures
        forall|v: usize| #[trigger]
            gather(grid_of(cells, n_blocks), neighbourhood(x, y, n_blocks)).contains(v) <==> v
                < cells.len() && cells[v as int] is Some && adjacent(cells[v as int]->0, x, y),
        gather(grid_of(cells, n_blocks), neighbourhood(x, y, n_blocks)).no_duplicates(),
{
    let cs = neighbourhood(x, y, n_blocks);
    lemma_neighbourhood(x, y, n_blocks);
    lemma_gather(cells, n_blocks, cs);
    assert forall|v: usize| #[trigger]
        gather(grid_of(cells, n_blocks), cs).contains(v) <==> v < cells.len() && cells[v as int]
            is Some && adjacent(cells[v as int]->0, x, y) by {
        if v < cells.len() && cells[v as int] is Some {
            assert(cell_fits(cells[v as int], n_blocks));
        }
    }
}

/// Where cell `d` stands in the neighbourhood of `(x, y)`.
spec fn position(d: (usize, usize), x: usize, y: usize, n: usize) -> int {
    let up: int = if y > 0 { 1 } else { 0 };
    let down: int = if y + 1 < n { 1 } else { 0 };
    let l: int = if x > 0 { up + down + 1 } else { 0 };
    let r: int = if x + 1 < n { up + down + 1 } else { 0 };
    let row: int = if d.1 + 1 == y { 0 } else if d.1 == y + 1 { up } else { up + down };
    if d.0 + 1 == x {
        1 + row
    } else if d.0 == x + 1 {
        1 + l + row
    } else if d.1 + 1 == y {
        1 + l + r
    } else if d.1 == y + 1 {
        1 + l + r + up
    } else {
        0
    }
}

/// The neighbourhood of `(x, y)` lists, once each, the cells of the grid
/// that are adjacent to it.
proof fn lemma_neighbourhood(x: usize, y: usize, n: usize)
    requires
        x < n,
        y < n,
    ensures
        forall|k: int|
            0 <= k < neighbourhood(x, y, n).len() ==> (#[trigger] neighbourhood(x, y, n)[k]).0 < n
                && neighbourhood(x, y, n)[k].1 < n,
        neighbourhood(x, y, n).no_duplicates(),
        forall|d: (usize, usize)| #[trigger]
            neighbourhood(x, y, n).contains(d) <==> d.0 < n && d.1 < n && adjacent(d, x, y),
{
    let cs = neighbourhood(x, y, n);
    let up: int = if y > 0 { 1 } else { 0 };
    let down: int = if y + 1 < n { 1 } else { 0 };
    let l: int = if x > 0 { up + down + 1 } else { 0 };
    let r: int = if x + 1 < n { up + down + 1 } else { 0 };
    assert(cs.len() == 1 + l + r + up + down);
    assert forall|k: int| 0 <= k < cs.len() implies (#[trigger] cs[k]).0 < n && cs[k].1 < n
        && adjacent(cs[k], x, y) && position(cs[k], x, y, n) == k by {}
    assert forall|d: (usize, usize)| d.0 < n && d.1 < n && adjacent(d, x, y) implies #[trigger] cs.contains(d) by {
        assert(cs[position(d, x, y, n)] == d);
    }
}

/// A grid of cells, each holding the indices of the vertices in it.
pub struct Blocking {
    blocks: Vec<Vec<Vec<usize>>>,
    n_blocks: usize,
}

impl Blocking {
    /// The contents of the grid, by column, then row.
    pub closed spec fn view(&self) -> Seq<Seq<Seq<usize>>> {
        Seq::new(
            self.blocks@.len(),
            |x: int| Seq::new(self.blocks@[x]@.len(), |y: int| self.blocks@[x]@[y]@),
        )
    }

    /// The number of cells along each side.
    pub closed spec fn side(&self) -> usize {
        self.n_blocks
    }

    /// The grid has `side() × side()` cells.
    pub open spec fn well_formed(&self) -> bool {
        &&& self@.len() == self.side()
        &&& forall|x: int| 0 <= x < self.side() ==> #[trigger] self@[x].len() == self.side()
    }

    /// Place vertex `i` in cell `cells[i]`, for every `i`.
    pub fn create(cells: &Vec<Cell>, n_blocks: usize) -> (r: Blocking)
        requires
            cells_fit(cells@, n_blocks),
        ensures
            r@ == grid_of(cells@, n_blocks),
            r.side() == n_blocks,
            r.well_formed(),
    {
        let mut blocks: Vec<Vec<Vec<usize>>> = Vec::new();
        let mut x: usize = 0;
        while x < n_blocks
            invariant
                x <= n_blocks,
                blocks@.len() == x,
                forall|a: int| 0 <= a < x ==> #[trigger] blocks@[a]@.len() == n_blocks,
                forall|a: int, b: int|
                    0 <= a < x && 0 <= b < n_blocks ==> #[trigger] blocks@[a]@[b]@.len() == 0,
            decreases n_blocks - x,
        {
            let mut column: Vec<Vec<usize>> = Vec::new();
            let mut y: usize = 0;
            while y < n_blocks
                invariant
                    y <= n_blocks,
                    column@.len() == y,
                    forall|b: int| 0 <= b < y ==> #[trigger] column@[b]@.len() == 0,
                decreases n_blocks - y,
            {
                column.push(Vec::new());
                y = y + 1;
            }
            blocks.push(column);
            x = x + 1;
        }
        let mut i: usize = 0;
        while i < cells.len()
            invariant
                cells_fit(cells@, n_blocks),
                i <= cells@.len(),
                blocks@.len() == n_blocks,
                forall|a: int| 0 <= a < n_blocks ==> #[trigger] blocks@[a]@.len() == n_blocks,
                forall|a: int, b: int|
                    0 <= a < n_blocks && 0 <= b < n_blocks ==> #[trigger] blocks@[a]@[b]@
                        == members(cells@.take(i as int), a as usize, b as usize),
            decreases cells@.len() - i,
        {
            assert(cells@.take(i + 1).drop_last() == cells@.take(i as int));
            if let Some((cx, cy)) = cells[i] {
                assert(cell_fits(cells@[i as int], n_blocks));
                blocks[cx][cy].push(i);
            }
            i = i + 1;
        }
        assert(cells@.take(cells@.len() as int) == cells@);
        let r = Blocking { blocks, n_blocks };
        assert forall|a: int| 0 <= a < n_blocks implies #[trigger] r@[a] =~= grid_of(
            cells@,
            n_blocks,
        )[a] by {}
        assert(r@ =~= grid_of(cells@, n_blocks));
        r
    }

    /// Append the contents of cell `(x, y)` to `out`.
    fn push_cell(
        &self,
        out: &mut Vec<usize>,
        visited: Ghost<Seq<(usize, usize)>>,
        x: usize,
        y: usize,
    ) -> (v: Ghost<Seq<(usize, usize)>>)
        requires
            self.well_formed(),
            x < self.side(),
            y < self.side(),
            old(out)@ == gather(self@, visited@),
        ensures
            v@ == visited@.push((x, y)),
            final(out)@ == gather(self@, v@),
    {
        let ghost v = visited@.push((x, y));
        assert(v.drop_last() =~= visited@);
        assert(self.blocks@.len() == self@.len());
        assert(self@[x as int].len() == self.side());
        assert(self.blocks@[x as int]@.len() == self@[x as int].len());
        let cell = &self.blocks[x][y];
        assert(cell@ == self@[x as int][y as int]);
        let ghost start = out@;
        let mut k: usize = 0;
        while k < cell.len()
            invariant
                k <= cell@.len(),
                out@ == start + cell@.take(k as int),
            decreases cell@.len() - k,
        {
            out.push(cell[k]);
            k = k + 1;
            assert(out@ =~= start + cell@.take(k as int));
        }
        assert(cell@.take(k as int) == cell@);
        Ghost(v)
    }

    /// The vertices in cell `c` and in the cells around it, cell after cell
    /// in the order of `neighbourhood`; nothing where `c` is `None`.
    pub fn nearby(&self, c: Cell) -> (r: Vec<usize>)
        requires
            self.well_formed(),
            cell_fits(c, self.side()),
        ensures
            r@ == match c {
                Some((x, y)) => gather(self@, neighbourhood(x, y, self.side())),
                None => Seq::empty(),
            },
    {
        let mut elems: Vec<usize> = Vec::new();
        match c {
            Some((x, y)) => {
                let n = self.n_blocks;
                let mut seen: Ghost<Seq<(usize, usize)>> = Ghost(Seq::empty());
                assert(elems@ == gather(self@, seen@));
                seen = self.push_cell(&mut elems, seen, x, y);
                if x > 0 {
                    if y > 0 {
                        seen = self.push_cell(&mut elems, seen, x - 1, y - 1);
                    }
                    if y + 1 < n {
                        seen = self.push_cell(&mut elems, seen, x - 1, y + 1);
                    }
                    seen = self.push_cell(&mut elems, seen, x - 1, y);
                }
                if x + 1 < n {
                    if y > 0 {
                        seen = self.push_cell(&mut elems, seen, x + 1, y - 1);
                    }
                    if y + 1 < n {
                        seen = self.push_cell(&mut elems, seen, x + 1, y + 1);
                    }
                    seen = self.push_cell(&mut elems, seen, x + 1, y);
                }
                if y > 0 {
                    seen = self.push_cell(&mut elems, seen, x, y - 1);
                }
                if y + 1 < n {
                    seen = self.push_cell(&mut elems, seen, x, y + 1);
                }
                assert(seen@ =~= neighbourhood(x, y, n));
            },
            None => {},
        }
        elems
    }
}

} // verus!
