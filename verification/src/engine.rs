//! The board engine: grid model, generator, reveal algorithm, flag toggling
//! and the win/loss state machine.
use vstd::prelude::*;

use crate::Cell;
use crate::GameState;
use crate::space::adjacent;
use crate::space::count_true;
use crate::space::in_b;
use crate::space::lemma_count_true_all;
use crate::space::lemma_count_true_complete;
use crate::space::lemma_flat_coords;
use crate::space::lemma_idx_lex;
use crate::space::lemma_count_true_bounds;
use crate::space::lemma_count_true_update;
use crate::space::lemma_idx_bounds;
use crate::space::lemma_idx_inj;
use crate::space::lemma_nbr_count_zero_at;
use crate::space::lemma_nbr_sym;
use crate::space::mask_at;
use crate::space::nbr_count;
use crate::space::nbr_count_upto;
use crate::space::nbr_dx;
use crate::space::nbr_dy;
use crate::space::neighbor;
use crate::rng::rng_below;
use crate::rng::rng_from_seed;
use crate::rng::time_seed;

verus! {

/// The mine mask of a grid: which flat cells hold a mine.
pub open spec fn mask_of(cells: Seq<Cell>) -> Seq<bool> {
    Seq::new(cells.len(), |i: int| cells[i] is Mine)
}

/// How many mines touch `(x, y)` in a grid of the given side length.
pub open spec fn adj_mines_of(cells: Seq<Cell>, size: int, x: int, y: int) -> int {
    nbr_count(mask_of(cells), size, x, y)
}

/// The content of `(x, y)` agrees with its Moore neighborhood: a `Number`
/// carries the exact adjacent-mine count, `Empty` means that count is zero.
pub open spec fn cell_ok(cells: Seq<Cell>, size: int, x: int, y: int) -> bool {
    match cells[y * size + x] {
        Cell::Mine => true,
        Cell::Empty => adj_mines_of(cells, size, x, y) == 0,
        Cell::Number(n) => 1 <= n <= 8 && n as int == adj_mines_of(cells, size, x, y),
    }
}

/// Every cell of the grid agrees with its neighborhood.
pub open spec fn numbers_correct_of(cells: Seq<Cell>, size: int) -> bool {
    forall|x: int, y: int| in_b(size, x, y) ==> #[trigger] cell_ok(cells, size, x, y)
}

/// No opened `Empty` cell has an unopened neighbor: every cascade has run
/// to completion.
pub open spec fn cascade_closed_of(cells: Seq<Cell>, opened: Seq<bool>, size: int) -> bool {
    forall|x: int, y: int, k: int|
        #![trigger mask_at(opened, size, x, y), nbr_dx(k)]
        in_b(size, x, y) && 0 <= k < 8 && mask_at(opened, size, x, y) && cells[y * size + x]
            is Empty && in_b(size, x + nbr_dx(k), y + nbr_dy(k)) ==> mask_at(
            opened,
            size,
            x + nbr_dx(k),
            y + nbr_dy(k),
        )
}

/// Every non-mine cell is opened: the win condition.
pub open spec fn all_safe_opened_of(cells: Seq<Cell>, opened: Seq<bool>, size: int) -> bool {
    forall|x: int, y: int|
        in_b(size, x, y) && !(#[trigger] cells[y * size + x] is Mine) ==> mask_at(
            opened,
            size,
            x,
            y,
        )
}

/// Some mine has been revealed: the loss condition.
pub open spec fn mine_opened_of(cells: Seq<Cell>, opened: Seq<bool>, size: int) -> bool {
    exists|x: int, y: int|
        in_b(size, x, y) && #[trigger] mask_at(opened, size, x, y) && cells[y * size + x] is Mine
}

/// `(x, y)` has an opened `Empty` Moore neighbor in the given grid; such
/// a cell is never a mine, and the cascade is what opened it.
pub open spec fn has_open_empty_nbr_of(
    cells: Seq<Cell>,
    opened: Seq<bool>,
    size: int,
    x: int,
    y: int,
) -> bool {
    exists|k: int|
        0 <= k < 8 && in_b(size, x + nbr_dx(k), y + nbr_dy(k)) && mask_at(
            opened,
            size,
            x + nbr_dx(k),
            y + nbr_dy(k),
        ) && cells[(y + nbr_dy(k)) * size + (x + nbr_dx(k))] is Empty
}

/// `(x, y)` is an entry of the worklist.
pub open spec fn on_stack(st: Seq<(usize, usize)>, x: int, y: int) -> bool {
    exists|j: int| 0 <= j < st.len() && (#[trigger] st[j]).0 as int == x && st[j].1 as int == y
}


/// Every set entry of `o1` is set in `o2`: the mask only grows.
pub open spec fn mask_grows(o1: Seq<bool>, o2: Seq<bool>, size: int) -> bool {
    forall|u: int, v: int|
        in_b(size, u, v) && #[trigger] mask_at(o1, size, u, v) ==> mask_at(o2, size, u, v)
}

/// The opened mask only grows from `a` to `b` (same grid).
pub open spec fn opened_grows(a: Minesweepers, b: Minesweepers) -> bool {
    mask_grows(a.opened@, b.opened@, a.side())
}

/// Every cell opened in `b` but not in `a` is the target `(tx, ty)` or
/// touches an opened `Empty` cell: a reveal opens nothing else.
pub open spec fn opened_soundly(a: Minesweepers, b: Minesweepers, tx: int, ty: int) -> bool {
    forall|u: int, v: int|
        in_b(b.side(), u, v) && #[trigger] b.opened_at(u, v) && !a.opened_at(u, v) ==> (u == tx && v
            == ty) || b.has_open_empty_neighbor(u, v)
}

/// Every worklist entry is in bounds, and is the target or touches an
/// opened `Empty` cell.
pub open spec fn stack_ok(s: Minesweepers, st: Seq<(usize, usize)>, tx: int, ty: int) -> bool {
    forall|j: int|
        0 <= j < st.len() ==> {
            let p = #[trigger] st[j];
            &&& in_b(s.side(), p.0 as int, p.1 as int)
            &&& ((p.0 as int == tx && p.1 as int == ty) || s.has_open_empty_neighbor(
                p.0 as int,
                p.1 as int,
            ))
        }
}

/// Mid-cascade form of `cascade_closed_of`: every neighbor owed by an
/// opened `Empty` cell is opened or still on the worklist.
pub open spec fn cascade_pending(s: Minesweepers, st: Seq<(usize, usize)>) -> bool {
    forall|x: int, y: int, k: int|
        #![trigger mask_at(s.opened@, s.side(), x, y), nbr_dx(k)]
        in_b(s.side(), x, y) && 0 <= k < 8 && mask_at(s.opened@, s.side(), x, y) && s.cells@[y
            * s.side() + x] is Empty && in_b(s.side(), x + nbr_dx(k), y + nbr_dy(k)) ==> mask_at(
            s.opened@,
            s.side(),
            x + nbr_dx(k),
            y + nbr_dy(k),
        ) || on_stack(st, x + nbr_dx(k), y + nbr_dy(k))
}

/// A cell beside an opened `Empty` cell is never a mine: an `Empty` cell
/// has zero adjacent mines.
pub proof fn lemma_open_empty_neighbor_not_mine(
    cells: Seq<Cell>,
    opened: Seq<bool>,
    size: int,
    x: int,
    y: int,
)
    requires
        cells.len() == size * size,
        numbers_correct_of(cells, size),
        in_b(size, x, y),
        has_open_empty_nbr_of(cells, opened, size, x, y),
    ensures
        !(cells[y * size + x] is Mine),
{
    let k = choose|k: int|
        0 <= k < 8 && in_b(size, x + nbr_dx(k), y + nbr_dy(k)) && mask_at(
            opened,
            size,
            x + nbr_dx(k),
            y + nbr_dy(k),
        ) && cells[(y + nbr_dy(k)) * size + (x + nbr_dx(k))] is Empty;
    let ex = x + nbr_dx(k);
    let ey = y + nbr_dy(k);
    assert(cell_ok(cells, size, ex, ey));
    lemma_nbr_sym(k);
    lemma_nbr_count_zero_at(mask_of(cells), size, ex, ey, 7 - k);
    assert(ex + nbr_dx(7 - k) == x && ey + nbr_dy(7 - k) == y);
    lemma_idx_bounds(size, x, y);
    assert(!mask_of(cells)[y * size + x]);
}

/// An opened `Empty` neighbor stays one when the opened mask only grows
/// and the grid is unchanged.
pub proof fn lemma_open_empty_nbr_monotone(
    cells: Seq<Cell>,
    o1: Seq<bool>,
    o2: Seq<bool>,
    size: int,
    x: int,
    y: int,
)
    requires
        mask_grows(o1, o2, size),
        has_open_empty_nbr_of(cells, o1, size, x, y),
    ensures
        has_open_empty_nbr_of(cells, o2, size, x, y),
{
    let k = choose|k: int|
        0 <= k < 8 && in_b(size, x + nbr_dx(k), y + nbr_dy(k)) && mask_at(
            o1,
            size,
            x + nbr_dx(k),
            y + nbr_dy(k),
        ) && cells[(y + nbr_dy(k)) * size + (x + nbr_dx(k))] is Empty;
    assert(mask_at(o2, size, x + nbr_dx(k), y + nbr_dy(k)));
}

/// Push every in-bounds Moore neighbor of `(x, y)` onto the worklist.
fn push_neighbors(stack: &mut Vec<(usize, usize)>, size: usize, x: usize, y: usize)
    requires
        x < size,
        y < size,
    ensures
        old(stack)@.len() <= final(stack)@.len() <= old(stack)@.len() + 8,
        forall|j: int| 0 <= j < old(stack)@.len() ==> final(stack)@[j] == old(stack)@[j],
        forall|j: int|
            old(stack)@.len() <= j < final(stack)@.len() ==> {
                let p = #[trigger] final(stack)@[j];
                p.0 < size && p.1 < size && adjacent(x as int, y as int, p.0 as int, p.1 as int)
            },
        forall|k: int|
            0 <= k < 8 && in_b(size as int, x + #[trigger] nbr_dx(k), y + nbr_dy(k)) ==> on_stack(
                final(stack)@,
                x + nbr_dx(k),
                y + nbr_dy(k),
            ),
{
    let ghost base = stack@;
    let mut k: usize = 0;
    while k < 8
        invariant
            x < size,
            y < size,
            k <= 8,
            base.len() <= stack@.len() <= base.len() + k,
            forall|j: int| 0 <= j < base.len() ==> stack@[j] == base[j],
            forall|j: int|
                base.len() <= j < stack@.len() ==> {
                    let p = #[trigger] stack@[j];
                    p.0 < size && p.1 < size && adjacent(x as int, y as int, p.0 as int, p.1 as int)
                },
            forall|k2: int|
                0 <= k2 < k && in_b(size as int, x + #[trigger] nbr_dx(k2), y + nbr_dy(k2))
                    ==> on_stack(stack@, x + nbr_dx(k2), y + nbr_dy(k2)),
        decreases 8 - k,
    {
        let ghost pre = stack@;
        match neighbor(size, x, y, k) {
            Some(p) => {
                stack.push(p);
                proof {
                    assert(stack@[pre.len() as int] == p);
                    assert(adjacent(x as int, y as int, p.0 as int, p.1 as int)) by {
                        assert(p.0 as int == x + nbr_dx(k as int) && p.1 as int == y + nbr_dy(
                            k as int,
                        ));
                    }
                    assert forall|k2: int|
                        0 <= k2 < k + 1 && in_b(
                            size as int,
                            x + #[trigger] nbr_dx(k2),
                            y + nbr_dy(k2),
                        ) implies on_stack(stack@, x + nbr_dx(k2), y + nbr_dy(k2)) by {
                        if k2 == k as int {
                            assert((stack@[pre.len() as int]).0 as int == x + nbr_dx(k2));
                        } else {
                            let j = choose|j: int|
                                0 <= j < pre.len() && (#[trigger] pre[j]).0 as int == x + nbr_dx(k2)
                                    && pre[j].1 as int == y + nbr_dy(k2);
                            assert(stack@[j] == pre[j]);
                        }
                    }
                }
            },
            None => {},
        }
        k = k + 1;
    }
}


/// How many random placements the generator attempts before it falls back
/// to a deterministic scan; keeps generation total even on degenerate
/// mine densities.
pub const SAMPLE_BUDGET: usize = 65536;

/// An all-`false` mask of the given length.
fn falses(n: usize) -> (v: Vec<bool>)
    ensures
        v@.len() == n,
        forall|j: int| 0 <= j < n ==> !v@[j],
        count_true(v@) == 0,
{
    let mut v: Vec<bool> = Vec::new();
    let mut i: usize = 0;
    while i < n
        invariant
            i <= n,
            v@.len() == i,
            forall|j: int| 0 <= j < i ==> !v@[j],
            count_true(v@) == 0,
        decreases n - i,
    {
        let ghost prev = v@;
        v.push(false);
        proof {
            assert(v@.drop_last() =~= prev);
        }
        i = i + 1;
    }
    v
}

/// How many entries of `mask` among the Moore neighbors of `(x, y)` are
/// set.
fn count_neighbors_set(mask: &Vec<bool>, size: usize, x: usize, y: usize) -> (c: u8)
    requires
        mask@.len() == size * size,
        x < size,
        y < size,
    ensures
        c as int == nbr_count(mask@, size as int, x as int, y as int),
        c <= 8,
{
    let mut c: u8 = 0;
    let mut k: usize = 0;
    while k < 8
        invariant
            mask@.len() == size * size,
            x < size,
            y < size,
            k <= 8,
            c as int <= k,
            c as int == nbr_count_upto(mask@, size as int, x as int, y as int, k as int),
        decreases 8 - k,
    {
        match neighbor(size, x, y, k) {
            Some(q) => {
                proof {
                    lemma_idx_bounds(size as int, q.0 as int, q.1 as int);
                }
                let n = mask.len();
                let qi = q.1 * size + q.0;
                if mask[qi] {
                    c = c + 1;
                }
            },
            None => {},
        }
        k = k + 1;
    }
    c
}

/// Place `mine_count` mines (`true` entries) on an empty mask by rejection
/// sampling; if the sampling budget runs out, the remaining mines are laid
/// down by a deterministic scan, so the function is total.
fn place_mines(size: usize, mine_count: usize, rng: &mut rand::rngs::SmallRng) -> (mines: Vec<
    bool,
>)
    requires
        1 <= size,
        size * size <= usize::MAX,
        mine_count < size * size,
    ensures
        mines@.len() == size * size,
        count_true(mines@) == mine_count,
{
    let total = size * size;
    let mut mines = falses(total);
    let mut placed: usize = 0;
    let mut attempts: usize = 0;
    while placed < mine_count && attempts < SAMPLE_BUDGET
        invariant
            1 <= size,
            total == size * size,
            mines@.len() == total,
            placed <= mine_count,
            mine_count < total,
            count_true(mines@) == placed,
        decreases SAMPLE_BUDGET - attempts,
    {
        let x = rng_below(rng, size);
        let y = rng_below(rng, size);
        proof {
            lemma_idx_bounds(size as int, x as int, y as int);
        }
        let i = y * size + x;
        if !mines[i] {
            proof {
                lemma_count_true_update(mines@, i as int, true);
            }
            mines[i] = true;
            placed = placed + 1;
        }
        attempts = attempts + 1;
    }
    let mut j: usize = 0;
    while j < total && placed < mine_count
        invariant
            total == mines@.len(),
            j <= total,
            placed <= mine_count,
            mine_count < total,
            count_true(mines@) == placed,
            placed == mine_count || forall|t: int| 0 <= t < j ==> mines@[t],
        decreases total - j,
    {
        if !mines[j] {
            proof {
                lemma_count_true_update(mines@, j as int, true);
            }
            mines[j] = true;
            placed = placed + 1;
        }
        j = j + 1;
    }
    proof {
        if placed < mine_count {
            lemma_count_true_all(mines@);
        }
    }
    mines
}

/// Derive the cell contents from a mine mask: mines stay mines, every
/// other cell gets its exact Moore-neighborhood mine count.
fn build_cells(size: usize, mines: &Vec<bool>) -> (cells: Vec<Cell>)
    requires
        1 <= size,
        mines@.len() == size * size,
    ensures
        cells@.len() == size * size,
        forall|i: int| 0 <= i < cells@.len() ==> ((#[trigger] cells@[i] is Mine) <==> mines@[i]),
        forall|a: int, b: int|
            in_b(size as int, a, b) ==> match #[trigger] cells@[b * (size as int) + a] {
                Cell::Mine => mines@[b * (size as int) + a],
                Cell::Empty => nbr_count(mines@, size as int, a, b) == 0,
                Cell::Number(n) => 1 <= n <= 8 && n as int == nbr_count(mines@, size as int, a, b),
            },
{
    let mut cells: Vec<Cell> = Vec::new();
    let mut y: usize = 0;
    while y < size
        invariant
            1 <= size,
            mines@.len() == size * size,
            y <= size,
            cells@.len() == y * size,
            forall|i: int| 0 <= i < cells@.len() ==> ((#[trigger] cells@[i] is Mine) <==> mines@[i]),
            forall|a: int, b: int|
                in_b(size as int, a, b) && b < y ==> match #[trigger] cells@[b * (size as int)
                    + a] {
                    Cell::Mine => mines@[b * (size as int) + a],
                    Cell::Empty => nbr_count(mines@, size as int, a, b) == 0,
                    Cell::Number(n) => 1 <= n <= 8 && n as int == nbr_count(
                        mines@,
                        size as int,
                        a,
                        b,
                    ),
                },
        decreases size - y,
    {
        let mut x: usize = 0;
        while x < size
            invariant
                1 <= size,
                mines@.len() == size * size,
                y < size,
                x <= size,
                cells@.len() == y * size + x,
                forall|i: int|
                    0 <= i < cells@.len() ==> ((#[trigger] cells@[i] is Mine) <==> mines@[i]),
                forall|a: int, b: int|
                    in_b(size as int, a, b) && (b < y || (b == y && a < x)) ==> match
                        #[trigger] cells@[b * (size as int) + a] {
                        Cell::Mine => mines@[b * (size as int) + a],
                        Cell::Empty => nbr_count(mines@, size as int, a, b) == 0,
                        Cell::Number(n) => 1 <= n <= 8 && n as int == nbr_count(
                            mines@,
                            size as int,
                            a,
                            b,
                        ),
                    },
            decreases size - x,
        {
            let n = mines.len();
            proof {
                lemma_idx_bounds(size as int, x as int, y as int);
            }
            let i = y * size + x;
            let c = if mines[i] {
                Cell::Mine
            } else {
                let cnt = count_neighbors_set(mines, size, x, y);
                if cnt == 0 {
                    Cell::Empty
                } else {
                    Cell::Number(cnt)
                }
            };
            let ghost prev = cells@;
            cells.push(c);
            proof {
                let sz = size as int;
                assert forall|j: int| 0 <= j < prev.len() implies cells@[j] == prev[j] by {
                    assert(cells@[j] == prev.push(c)[j]);
                }
                assert(cells@[y as int * sz + x as int] == c);
                assert forall|a: int, b: int|
                    in_b(sz, a, b) && (b < y || (b == y && a < x + 1)) implies match (
                #[trigger] cells@[b * sz + a]) {
                    Cell::Mine => mines@[b * sz + a],
                    Cell::Empty => nbr_count(mines@, sz, a, b) == 0,
                    Cell::Number(n) => 1 <= n <= 8 && n as int == nbr_count(mines@, sz, a, b),
                } by {
                    if b == y as int && a == x as int {
                    } else {
                        lemma_idx_lex(sz, a, b, x as int, y as int);
                        assert(cells@[b * sz + a] == prev[b * sz + a]);
                    }
                }
            }
            x = x + 1;
        }
        proof {
            assert((y + 1) * (size as int) == y * (size as int) + size) by (nonlinear_arith);
        }
        y = y + 1;
    }
    cells
}

/// The board engine. It owns the immutable grid of cell contents, the two
/// mutable per-cell masks (`opened`, `flagged`), the derived game-state
/// booleans, and the start-of-timer flag. All three vectors are stored row
/// by row: `(x, y)` lives at flat index `y * grid_size + x`.
pub struct Minesweepers {
    pub grid_size: usize,
    pub cells: Vec<Cell>,
    pub opened: Vec<bool>,
    pub flagged: Vec<bool>,
    pub game_over: bool,
    pub game_won: bool,
    pub timer_started: bool,
}

impl Minesweepers {
    /// Side length of the square board, as a mathematical integer.
    pub open spec fn side(self) -> int {
        self.grid_size as int
    }

    /// Total number of cells.
    pub open spec fn total(self) -> int {
        self.side() * self.side()
    }

    pub open spec fn cell_at(self, x: int, y: int) -> Cell {
        self.cells@[y * self.side() + x]
    }

    pub open spec fn opened_at(self, x: int, y: int) -> bool {
        mask_at(self.opened@, self.side(), x, y)
    }

    pub open spec fn flagged_at(self, x: int, y: int) -> bool {
        mask_at(self.flagged@, self.side(), x, y)
    }

    /// How many mines touch `(x, y)`.
    pub open spec fn adj_mines(self, x: int, y: int) -> int {
        adj_mines_of(self.cells@, self.side(), x, y)
    }

    /// How many flagged cells touch `(x, y)`.
    pub open spec fn adj_flags(self, x: int, y: int) -> int {
        nbr_count(self.flagged@, self.side(), x, y)
    }

    /// How many cells of the whole grid are mines.
    pub open spec fn mine_total(self) -> int {
        count_true(mask_of(self.cells@))
    }

    pub open spec fn dims_ok(self) -> bool {
        &&& self.grid_size >= 1
        &&& self.cells@.len() == self.total()
        &&& self.opened@.len() == self.total()
        &&& self.flagged@.len() == self.total()
    }

    /// `(x, y)` has an opened `Empty` Moore neighbor.
    pub open spec fn has_open_empty_neighbor(self, x: int, y: int) -> bool {
        has_open_empty_nbr_of(self.cells@, self.opened@, self.side(), x, y)
    }


/// The chording condition: the target is an opened `Number(n)` cell whose
/// flagged-neighbor count is exactly `n`.
pub open spec fn chord_ok(self, x: int, y: int) -> bool {
    self.opened_at(x, y) && (self.cell_at(x, y) matches Cell::Number(n) && n as int
        == self.adj_flags(x, y))
}

    /// The engine invariant: consistent dimensions, numbering that matches
    /// the mine placement, no half-finished cascade, and game-state booleans
    /// that are exactly the derived win/loss conditions (never both).
    pub open spec fn wf(self) -> bool {
        &&& self.dims_ok()
        &&& numbers_correct_of(self.cells@, self.side())
        &&& cascade_closed_of(self.cells@, self.opened@, self.side())
        &&& self.game_over == mine_opened_of(self.cells@, self.opened@, self.side())
        &&& self.game_won == (!self.game_over && all_safe_opened_of(
            self.cells@,
            self.opened@,
            self.side(),
        ))
    }

    /// Flat index of `(x, y)`.
    fn idx(&self, x: usize, y: usize) -> (i: usize)
        requires
            self.dims_ok(),
            x < self.grid_size,
            y < self.grid_size,
        ensures
            i == y * self.side() + x,
            i < self.cells@.len(),
    {
        let n = self.cells.len();
        proof {
            lemma_idx_bounds(self.side(), x as int, y as int);
        }
        y * self.grid_size + x
    }

    pub fn size(&self) -> (s: usize)
        ensures
            s == self.grid_size,
    {
        self.grid_size
    }

    pub fn cell(&self, x: usize, y: usize) -> (c: Cell)
        requires
            self.dims_ok(),
            x < self.grid_size,
            y < self.grid_size,
        ensures
            c == self.cell_at(x as int, y as int),
    {
        let i = self.idx(x, y);
        self.cells[i]
    }

    pub fn is_opened(&self, x: usize, y: usize) -> (b: bool)
        requires
            self.dims_ok(),
            x < self.grid_size,
            y < self.grid_size,
        ensures
            b == self.opened_at(x as int, y as int),
    {
        let i = self.idx(x, y);
        self.opened[i]
    }

    pub fn is_flagged(&self, x: usize, y: usize) -> (b: bool)
        requires
            self.dims_ok(),
            x < self.grid_size,
            y < self.grid_size,
        ensures
            b == self.flagged_at(x as int, y as int),
    {
        let i = self.idx(x, y);
        self.flagged[i]
    }

    pub fn is_game_over(&self) -> (b: bool)
        ensures
            b == self.game_over,
    {
        self.game_over
    }

    pub fn is_game_won(&self) -> (b: bool)
        ensures
            b == self.game_won,
    {
        self.game_won
    }

    pub fn is_timer_started(&self) -> (b: bool)
        ensures
            b == self.timer_started,
    {
        self.timer_started
    }

    /// The derived game state as one value.
    pub fn state(&self) -> (s: GameState)
        ensures
            s == (if self.game_over {
                GameState::Lost
            } else if self.game_won {
                GameState::Won
            } else {
                GameState::InProgress
            }),
    {
        if self.game_over {
            GameState::Lost
        } else if self.game_won {
            GameState::Won
        } else {
            GameState::InProgress
        }
    }

    /// Flag or unflag `(x, y)`. A no-op once the game is over or the cell
    /// is opened; otherwise it inverts exactly that one flag.
    pub fn toggle_flag(&mut self, x: usize, y: usize)
        requires
            old(self).wf(),
            x < old(self).grid_size,
            y < old(self).grid_size,
        ensures
            final(self).wf(),
            old(self).game_over || old(self).game_won || old(self).opened_at(x as int, y as int)
                ==> *final(self) == *old(self),
            !(old(self).game_over || old(self).game_won || old(self).opened_at(
                x as int,
                y as int,
            )) ==> {
                &&& final(self).flagged@ == old(self).flagged@.update(
                    y as int * old(self).side() + x as int,
                    !old(self).flagged_at(x as int, y as int),
                )
                &&& final(self).flagged_at(x as int, y as int) == !old(self).flagged_at(
                    x as int,
                    y as int,
                )
                &&& final(self).cells@ == old(self).cells@
                &&& final(self).opened@ == old(self).opened@
                &&& final(self).grid_size == old(self).grid_size
                &&& final(self).game_over == old(self).game_over
                &&& final(self).game_won == old(self).game_won
                &&& final(self).timer_started == old(self).timer_started
            },
    {
        if self.game_over || self.game_won {
            return ;
        }
        let i = self.idx(x, y);
        if self.opened[i] {
            return ;
        }
        let was: bool = self.flagged[i];
        self.flagged[i] = !was;
    }

    /// Recompute the win flag: won exactly when the game is not lost and
    /// every non-mine cell is opened.
    fn check_win(&mut self)
        requires
            old(self).dims_ok(),
        ensures
            final(self).grid_size == old(self).grid_size,
            final(self).cells@ == old(self).cells@,
            final(self).opened@ == old(self).opened@,
            final(self).flagged@ == old(self).flagged@,
            final(self).game_over == old(self).game_over,
            final(self).timer_started == old(self).timer_started,
            final(self).game_won == (!final(self).game_over && all_safe_opened_of(
                final(self).cells@,
                final(self).opened@,
                final(self).side(),
            )),
    {
        let size = self.grid_size;
        let mut all: bool = true;
        let mut y: usize = 0;
        while y < size
            invariant
                self.dims_ok(),
                size == self.grid_size,
                y <= size,
                all == (forall|a: int, b: int|
                    in_b(size as int, a, b) && b < y && !(#[trigger] self.cells@[b * size as int
                        + a] is Mine) ==> mask_at(self.opened@, size as int, a, b)),
            decreases size - y,
        {
            let mut x: usize = 0;
            while x < size
                invariant
                    self.dims_ok(),
                    size == self.grid_size,
                    y < size,
                    x <= size,
                    all == (forall|a: int, b: int|
                        in_b(size as int, a, b) && (b < y || (b == y && a < x)) && !(
                        #[trigger] self.cells@[b * size as int + a] is Mine) ==> mask_at(
                            self.opened@,
                            size as int,
                            a,
                            b,
                        )),
                decreases size - x,
            {
                let i = self.idx(x, y);
                let c = self.cells[i];
                if !matches!(c, Cell::Mine) && !self.opened[i] {
                    all = false;
                }
                x = x + 1;
            }
            y = y + 1;
        }
        self.game_won = all && !self.game_over;
    }

    /// The unconditional single-cell open with cascade: the recursive
    /// primitive of the reveal algorithm, realized as a worklist flood
    /// fill. A no-op on an already-opened cell. Opening a mine sets the
    /// loss flag; opening an `Empty` cell opens its whole contiguous empty
    /// region plus the bordering `Number` cells, and nothing else; the win
    /// flag is recomputed at the end.
    #[verifier::rlimit(100)]
    #[verifier::spinoff_prover]
    pub fn open_cell_inner(&mut self, x: usize, y: usize)
        requires
            old(self).wf(),
            x < old(self).grid_size,
            y < old(self).grid_size,
        ensures
            final(self).wf(),
            final(self).grid_size == old(self).grid_size,
            final(self).cells@ == old(self).cells@,
            final(self).flagged@ == old(self).flagged@,
            final(self).timer_started == old(self).timer_started,
            final(self).opened@.len() == old(self).opened@.len(),
            opened_grows(*old(self), *final(self)),
            final(self).opened_at(x as int, y as int),
            old(self).opened_at(x as int, y as int) ==> *final(self) == *old(self),
            opened_soundly(*old(self), *final(self), x as int, y as int),
            final(self).game_over == (old(self).game_over || (!old(self).opened_at(
                x as int,
                y as int,
            ) && old(self).cell_at(x as int, y as int) is Mine)),
            final(self).game_won == (!final(self).game_over && all_safe_opened_of(
                final(self).cells@,
                final(self).opened@,
                final(self).side(),
            )),
    {
        let i = self.idx(x, y);
        if self.opened[i] {
            return ;
        }
        let ghost orig = *self;
        let mut stack: Vec<(usize, usize)> = Vec::new();
        stack.push((x, y));
        proof {
            lemma_count_true_bounds(self.opened@);
            assert(stack@[0] == (x, y));
        }
        while stack.len() != 0
            invariant
                orig.wf(),
                x < orig.grid_size,
                y < orig.grid_size,
                !orig.opened_at(x as int, y as int),
                self.dims_ok(),
                self.grid_size == orig.grid_size,
                self.cells@ == orig.cells@,
                self.flagged@ == orig.flagged@,
                self.timer_started == orig.timer_started,
                self.game_won == orig.game_won,
                self.opened@.len() == orig.opened@.len(),
                count_true(self.opened@) <= self.opened@.len(),
                opened_grows(orig, *self),
                opened_soundly(orig, *self, x as int, y as int),
                stack_ok(*self, stack@, x as int, y as int),
                cascade_pending(*self, stack@),
                self.opened_at(x as int, y as int) || on_stack(stack@, x as int, y as int),
                self.game_over == (orig.game_over || (self.opened_at(x as int, y as int)
                    && orig.cell_at(x as int, y as int) is Mine)),
            decreases (self.opened@.len() - count_true(self.opened@)) * 9 + stack@.len(),
        {
            let ghost st_pre = stack@;
            let p = stack.pop().unwrap();
            let cx = p.0;
            let cy = p.1;
            proof {
                assert(st_pre[st_pre.len() - 1] == p);
            }
            let ci = self.idx(cx, cy);
            if !self.opened[ci] {
                let ghost s0 = *self;
                proof {
                    lemma_count_true_update(s0.opened@, ci as int, true);
                }
                self.opened[ci] = true;
                let c = self.cells[ci];
                if matches!(c, Cell::Mine) {
                    self.game_over = true;
                }
                let opened_empty = matches!(c, Cell::Empty);
                if opened_empty {
                    let gs = self.grid_size;
                    push_neighbors(&mut stack, gs, cx, cy);
                }
                proof {
                    let size = self.side();
                    let tx = x as int;
                    let ty = y as int;
                    let cxi = cx as int;
                    let cyi = cy as int;
                    lemma_count_true_bounds(self.opened@);
                    // pointwise effect of the single update
                    assert forall|a: int, b: int| in_b(size, a, b) implies self.opened_at(a, b)
                        == ((a == cxi && b == cyi) || s0.opened_at(a, b)) by {
                        lemma_idx_bounds(size, a, b);
                        if b * size + a == cyi * size + cxi {
                            lemma_idx_inj(size, a, b, cxi, cyi);
                        }
                    }
                    assert(opened_grows(orig, *self));
                    // the popped entry was justified: target, or beside an opened empty
                    assert(in_b(size, cxi, cyi) && ((cxi == tx && cyi == ty)
                        || s0.has_open_empty_neighbor(cxi, cyi)));
                    if !(cxi == tx && cyi == ty) {
                        lemma_open_empty_nbr_monotone(self.cells@, s0.opened@, self.opened@, size, cxi, cyi);
                    }
                    assert forall|u: int, v: int|
                        in_b(size, u, v) && #[trigger] self.opened_at(u, v) && !orig.opened_at(
                            u,
                            v,
                        ) implies (u == tx && v == ty) || self.has_open_empty_neighbor(u, v) by {
                        if u == cxi && v == cyi {
                        } else {
                            assert(s0.opened_at(u, v));
                            if !(u == tx && v == ty) {
                                lemma_open_empty_nbr_monotone(self.cells@, s0.opened@, self.opened@, size, u, v);
                            }
                        }
                    }
                    // worklist entries remain justified
                    assert forall|j: int| 0 <= j < stack@.len() implies {
                        let q = #[trigger] stack@[j];
                        &&& in_b(size, q.0 as int, q.1 as int)
                        &&& ((q.0 as int == tx && q.1 as int == ty) || self.has_open_empty_neighbor(
                            q.0 as int,
                            q.1 as int,
                        ))
                    } by {
                        if j < st_pre.len() - 1 {
                            assert(stack@[j] == st_pre[j]);
                            let q = st_pre[j];
                            if !(q.0 as int == tx && q.1 as int == ty) {
                                lemma_open_empty_nbr_monotone(self.cells@, s0.opened@, self.opened@, size, q.0 as int, q.1 as int);
                            }
                        } else {
                            // a freshly pushed neighbor of the opened empty cell
                            let q = stack@[j];
                            let k = choose|k: int|
                                0 <= k < 8 && q.0 as int == cxi + nbr_dx(k) && q.1 as int == cyi
                                    + nbr_dy(k);
                            lemma_nbr_sym(k);
                            assert(q.0 as int + nbr_dx(7 - k) == cxi && q.1 as int + nbr_dy(7 - k)
                                == cyi);
                            assert(self.opened_at(cxi, cyi));
                            assert(self.has_open_empty_neighbor(q.0 as int, q.1 as int));
                        }
                    }
                    // every owed neighbor is opened or still queued
                    assert forall|a: int, b: int, k: int|
                        #![trigger mask_at(self.opened@, size, a, b), nbr_dx(k)]
                        in_b(size, a, b) && 0 <= k < 8 && mask_at(self.opened@, size, a, b)
                            && self.cells@[b * size + a] is Empty && in_b(
                            size,
                            a + nbr_dx(k),
                            b + nbr_dy(k),
                        ) implies mask_at(self.opened@, size, a + nbr_dx(k), b + nbr_dy(k))
                        || on_stack(stack@, a + nbr_dx(k), b + nbr_dy(k)) by {
                        let nx = a + nbr_dx(k);
                        let ny = b + nbr_dy(k);
                        if a == cxi && b == cyi {
                            assert(opened_empty);
                            assert(on_stack(stack@, nx, ny));
                        } else {
                            assert(s0.opened_at(a, b));
                            if mask_at(s0.opened@, size, nx, ny) {
                            } else {
                                assert(on_stack(st_pre, nx, ny));
                                let j = choose|j: int|
                                    0 <= j < st_pre.len() && (#[trigger] st_pre[j]).0 as int == nx
                                        && st_pre[j].1 as int == ny;
                                if j < st_pre.len() - 1 {
                                    assert(stack@[j] == st_pre[j]);
                                    assert(on_stack(stack@, nx, ny));
                                } else {
                                    assert(nx == cxi && ny == cyi);
                                }
                            }
                        }
                    }
                    // the target stays opened or queued
                    if !(cxi == tx && cyi == ty) && !s0.opened_at(tx, ty) {
                        let j = choose|j: int|
                            0 <= j < st_pre.len() && (#[trigger] st_pre[j]).0 as int == tx
                                && st_pre[j].1 as int == ty;
                        if j < st_pre.len() - 1 {
                            assert(stack@[j] == st_pre[j]);
                            assert(on_stack(stack@, tx, ty));
                        }
                    }
                    // the loss flag flips only on the target mine
                    if self.cell_at(cxi, cyi) is Mine && !(cxi == tx && cyi == ty) {
                        lemma_open_empty_neighbor_not_mine(self.cells@, s0.opened@, size, cxi, cyi);
                    }
                }
            } else {
                proof {
                    let size = self.side();
                    let tx = x as int;
                    let ty = y as int;
                    // dropped entry was already opened; witnesses shift down
                    assert forall|j: int| 0 <= j < stack@.len() implies stack@[j] == st_pre[j] by {}
                    assert forall|a: int, b: int, k: int|
                        #![trigger mask_at(self.opened@, size, a, b), nbr_dx(k)]
                        in_b(size, a, b) && 0 <= k < 8 && mask_at(self.opened@, size, a, b)
                            && self.cells@[b * size + a] is Empty && in_b(
                            size,
                            a + nbr_dx(k),
                            b + nbr_dy(k),
                        ) implies mask_at(self.opened@, size, a + nbr_dx(k), b + nbr_dy(k))
                        || on_stack(stack@, a + nbr_dx(k), b + nbr_dy(k)) by {
                        let nx = a + nbr_dx(k);
                        let ny = b + nbr_dy(k);
                        if !mask_at(self.opened@, size, nx, ny) {
                            assert(on_stack(st_pre, nx, ny));
                            let j = choose|j: int|
                                0 <= j < st_pre.len() && (#[trigger] st_pre[j]).0 as int == nx
                                    && st_pre[j].1 as int == ny;
                            if j < st_pre.len() - 1 {
                                assert(stack@[j] == st_pre[j]);
                                assert(on_stack(stack@, nx, ny));
                            } else {
                                assert(nx == cx as int && ny == cy as int);
                                assert(self.opened_at(nx, ny));
                            }
                        }
                    }
                    if !self.opened_at(tx, ty) {
                        let j = choose|j: int|
                            0 <= j < st_pre.len() && (#[trigger] st_pre[j]).0 as int == tx
                                && st_pre[j].1 as int == ty;
                        if j < st_pre.len() - 1 {
                            assert(stack@[j] == st_pre[j]);
                            assert(on_stack(stack@, tx, ty));
                        } else {
                            assert(self.opened_at(cx as int, cy as int));
                        }
                    }
                }
            }
        }
        proof {
            // an empty worklist turns the pending form into cascade closure
            assert forall|a: int, b: int, k: int|
                #![trigger mask_at(self.opened@, self.side(), a, b), nbr_dx(k)]
                in_b(self.side(), a, b) && 0 <= k < 8 && mask_at(self.opened@, self.side(), a, b)
                    && self.cells@[b * self.side() + a] is Empty && in_b(
                    self.side(),
                    a + nbr_dx(k),
                    b + nbr_dy(k),
                ) implies mask_at(self.opened@, self.side(), a + nbr_dx(k), b + nbr_dy(k)) by {
                assert(!on_stack(stack@, a + nbr_dx(k), b + nbr_dy(k)));
            }
        }
        let ghost before_win = *self;
        self.check_win();
        proof {
            let size = self.side();
            let tx = x as int;
            let ty = y as int;
            // soundness carries over the win recomputation
            assert forall|u: int, v: int|
                in_b(size, u, v) && #[trigger] self.opened_at(u, v) && !orig.opened_at(
                    u,
                    v,
                ) implies (u == tx && v == ty) || self.has_open_empty_neighbor(u, v) by {
                assert(before_win.opened_at(u, v));
            }
            // the loss flag is exactly "some mine is opened"
            if self.game_over {
                if orig.game_over {
                    let (mx, my) = choose|mx: int, my: int|
                        in_b(size, mx, my) && #[trigger] mask_at(orig.opened@, size, mx, my)
                            && orig.cells@[my * size + mx] is Mine;
                    assert(orig.opened_at(mx, my));
                    assert(mask_at(self.opened@, size, mx, my));
                } else {
                    assert(mask_at(self.opened@, size, tx, ty));
                }
                assert(mine_opened_of(self.cells@, self.opened@, size));
            }
            if mine_opened_of(self.cells@, self.opened@, size) {
                let (mx, my) = choose|mx: int, my: int|
                    in_b(size, mx, my) && #[trigger] mask_at(self.opened@, size, mx, my)
                        && self.cells@[my * size + mx] is Mine;
                if orig.opened_at(mx, my) {
                    assert(mask_at(orig.opened@, size, mx, my));
                    assert(mine_opened_of(orig.cells@, orig.opened@, size));
                } else {
                    assert(self.opened_at(mx, my));
                    if !(mx == tx && my == ty) {
                        assert(before_win.opened_at(mx, my));
                        assert(before_win.has_open_empty_neighbor(mx, my));
                        lemma_open_empty_neighbor_not_mine(
                            self.cells@,
                            self.opened@,
                            size,
                            mx,
                            my,
                        );
                    }
                }
                assert(self.game_over);
            }
        }
    }

    /// How many flagged cells touch `(x, y)`.
    fn count_adjacent_flags(&self, x: usize, y: usize) -> (c: u8)
        requires
            self.dims_ok(),
            x < self.grid_size,
            y < self.grid_size,
        ensures
            c as int == self.adj_flags(x as int, y as int),
            c <= 8,
    {
        let mut c: u8 = 0;
        let mut k: usize = 0;
        while k < 8
            invariant
                self.dims_ok(),
                x < self.grid_size,
                y < self.grid_size,
                k <= 8,
                c as int <= k,
                c as int == nbr_count_upto(
                    self.flagged@,
                    self.side(),
                    x as int,
                    y as int,
                    k as int,
                ),
            decreases 8 - k,
        {
            match neighbor(self.grid_size, x, y, k) {
                Some(q) => {
                    let qi = self.idx(q.0, q.1);
                    if self.flagged[qi] {
                        c = c + 1;
                    }
                },
                None => {},
            }
            k = k + 1;
        }
        c
    }

    /// The player-facing reveal. A no-op when the cell is flagged or the
    /// game is over. On an opened `Number` cell whose flagged-neighbor
    /// count matches, it first mass-opens every unflagged unopened
    /// neighbor (chording). It always starts the timer and ends by opening
    /// the targeted cell itself.
    #[verifier::rlimit(100)]
    pub fn open_cell(&mut self, x: usize, y: usize)
        requires
            old(self).wf(),
            x < old(self).grid_size,
            y < old(self).grid_size,
        ensures
            final(self).wf(),
            old(self).flagged_at(x as int, y as int) || old(self).game_over || old(self).game_won
                ==> *final(self) == *old(self),
            !(old(self).flagged_at(x as int, y as int) || old(self).game_over
                || old(self).game_won) ==> {
                &&& final(self).grid_size == old(self).grid_size
                &&& final(self).cells@ == old(self).cells@
                &&& final(self).flagged@ == old(self).flagged@
                &&& final(self).timer_started
                &&& final(self).opened@.len() == old(self).opened@.len()
                &&& opened_grows(*old(self), *final(self))
                &&& final(self).opened_at(x as int, y as int)
                &&& final(self).game_over == (old(self).game_over || (!old(self).opened_at(
                    x as int,
                    y as int,
                ) && old(self).cell_at(x as int, y as int) is Mine) || mine_opened_of(
                    final(self).cells@,
                    final(self).opened@,
                    final(self).side(),
                ))
                &&& (old(self).chord_ok(x as int, y as int) ==> forall|k: int|
                    0 <= k < 8 && in_b(
                        old(self).side(),
                        x + #[trigger] nbr_dx(k),
                        y + nbr_dy(k),
                    ) && !old(self).flagged_at(x + nbr_dx(k), y + nbr_dy(k)) ==> final(self).opened_at(x + nbr_dx(k), y + nbr_dy(k)))
                &&& (old(self).opened_at(x as int, y as int) && !old(self).chord_ok(
                    x as int,
                    y as int,
                ) ==> final(self).opened@ == old(self).opened@ && final(self).game_over == old(self).game_over && final(self).game_won == old(self).game_won)
                &&& (forall|u: int, v: int|
                    in_b(final(self).side(), u, v) && #[trigger] final(self).opened_at(u, v)
                        && !old(self).opened_at(u, v) ==> (u == x as int && v == y as int) || (old(self).chord_ok(x as int, y as int) && adjacent(x as int, y as int, u, v) && !old(self).flagged_at(u, v)) || final(self).has_open_empty_neighbor(u, v))
            },
    {
        if self.game_over || self.game_won {
            return ;
        }
        let i = self.idx(x, y);
        if self.flagged[i] {
            return ;
        }
        let ghost orig = *self;
        if self.opened[i] {
            let c = self.cells[i];
            if let Cell::Number(n) = c {
                let flags = self.count_adjacent_flags(x, y);
                if n == flags {
                    proof {
                        assert(orig.chord_ok(x as int, y as int));
                    }
                    let mut k: usize = 0;
                    while k < 8
                        invariant
                            orig.wf(),
                            orig.chord_ok(x as int, y as int),
                            x < orig.grid_size,
                            y < orig.grid_size,
                            orig.opened_at(x as int, y as int),
                            k <= 8,
                            self.wf(),
                            self.grid_size == orig.grid_size,
                            self.cells@ == orig.cells@,
                            self.flagged@ == orig.flagged@,
                            self.timer_started == orig.timer_started,
                            self.opened@.len() == orig.opened@.len(),
                            opened_grows(orig, *self),
                            forall|k2: int|
                                0 <= k2 < k && in_b(
                                    orig.side(),
                                    x + #[trigger] nbr_dx(k2),
                                    y + nbr_dy(k2),
                                ) && !orig.flagged_at(x + nbr_dx(k2), y + nbr_dy(k2))
                                    ==> self.opened_at(x + nbr_dx(k2), y + nbr_dy(k2)),
                            forall|u: int, v: int|
                                in_b(self.side(), u, v) && #[trigger] self.opened_at(u, v)
                                    && !orig.opened_at(u, v) ==> (adjacent(x as int, y as int, u, v)
                                    && !orig.flagged_at(u, v)) || self.has_open_empty_neighbor(
                                    u,
                                    v,
                                ),
                        decreases 8 - k,
                    {
                        let gs = self.grid_size;
                        match neighbor(gs, x, y, k) {
                            Some(q) => {
                                let qi = self.idx(q.0, q.1);
                                if !self.flagged[qi] && !self.opened[qi] {
                                    let ghost mid = *self;
                                    self.open_cell_inner(q.0, q.1);
                                    proof {
                                        assert(adjacent(x as int, y as int, q.0 as int, q.1 as int))
                                            by {
                                            assert(q.0 as int == x + nbr_dx(k as int) && q.1 as int
                                                == y + nbr_dy(k as int));
                                        }
                                        assert forall|u: int, v: int|
                                            in_b(self.side(), u, v) && #[trigger] self.opened_at(
                                                u,
                                                v,
                                            ) && !orig.opened_at(u, v) implies (adjacent(
                                            x as int,
                                            y as int,
                                            u,
                                            v,
                                        ) && !orig.flagged_at(u, v))
                                            || self.has_open_empty_neighbor(u, v) by {
                                            if mid.opened_at(u, v) {
                                                if !(adjacent(x as int, y as int, u, v)
                                                    && !orig.flagged_at(u, v)) {
                                                    lemma_open_empty_nbr_monotone(
                                                        self.cells@,
                                                        mid.opened@,
                                                        self.opened@,
                                                        self.side(),
                                                        u,
                                                        v,
                                                    );
                                                }
                                            } else {
                                                if !(u == q.0 as int && v == q.1 as int) {
                                                    assert(self.has_open_empty_neighbor(u, v));
                                                }
                                            }
                                        }
                                    }
                                }
                            },
                            None => {},
                        }
                        k = k + 1;
                    }
                }
            }
        }
        let ghost loopend = *self;
        self.timer_started = true;
        let ghost pre = *self;
        self.open_cell_inner(x, y);
        proof {
            let tx = x as int;
            let ty = y as int;
            assert forall|u: int, v: int|
                in_b(self.side(), u, v) && #[trigger] self.opened_at(u, v) && !orig.opened_at(
                    u,
                    v,
                ) implies (u == tx && v == ty) || (orig.chord_ok(tx, ty) && adjacent(tx, ty, u, v)
                && !orig.flagged_at(u, v)) || self.has_open_empty_neighbor(u, v) by {
                if !(u == tx && v == ty) && !(orig.chord_ok(tx, ty) && adjacent(tx, ty, u, v)
                    && !orig.flagged_at(u, v)) {
                    if pre.opened_at(u, v) {
                        // opened during the chording pass
                        assert(loopend.opened_at(u, v));
                        assert(has_open_empty_nbr_of(
                            self.cells@,
                            loopend.opened@,
                            self.side(),
                            u,
                            v,
                        ));
                        lemma_open_empty_nbr_monotone(
                            self.cells@,
                            loopend.opened@,
                            self.opened@,
                            self.side(),
                            u,
                            v,
                        );
                    }
                }
            }
            if self.game_over && !orig.game_over && !(!orig.opened_at(x as int, y as int)
                && orig.cell_at(x as int, y as int) is Mine) {
                assert(mine_opened_of(self.cells@, self.opened@, self.side()));
            }
            if mine_opened_of(self.cells@, self.opened@, self.side()) {
                assert(self.game_over);
            }
        }
    }

    /// Build a board from an explicit mine layout (`true` = mine): the
    /// deterministic generation entry point. Contents are derived from the
    /// layout, nothing is opened or flagged, and the game state is freshly
    /// derived. Returns `None` exactly when the layout does not cover a
    /// square board of positive side `size`.
    #[verifier::rlimit(100)]
    #[verifier::spinoff_prover]
    pub fn from_mine_layout(size: usize, mines: Vec<bool>) -> (r: Option<Minesweepers>)
        ensures
            (r is Some) <==> (size >= 1 && mines@.len() == size * size),
            r matches Some(b) ==> b.wf(),
            r matches Some(b) ==> b.grid_size == size,
            r matches Some(b) ==> mask_of(b.cells@) == mines@,
            r matches Some(b) ==> b.mine_total() == count_true(mines@),
            r matches Some(b) ==> forall|j: int|
                0 <= j < b.opened@.len() ==> !(#[trigger] b.opened@[j]) && !b.flagged@[j],
            r matches Some(b) ==> count_true(b.opened@) == 0 && count_true(b.flagged@) == 0,
            r matches Some(b) ==> !b.game_over,
            r matches Some(b) ==> b.game_won == (count_true(mines@) == b.total()),
            r matches Some(b) ==> !b.timer_started,
    {
        if size == 0 {
            return None;
        }
        let n = mines.len();
        let total = match size.checked_mul(size) {
            Some(t) => t,
            None => {
                return None;
            },
        };
        if n != total {
            return None;
        }
        let cells = build_cells(size, &mines);
        let opened = falses(total);
        let flagged = falses(total);
        let mut b = Minesweepers {
            grid_size: size,
            cells,
            opened,
            flagged,
            game_over: false,
            game_won: false,
            timer_started: false,
        };
        proof {
            let sz = size as int;
            assert(mask_of(b.cells@) =~= mines@);
            assert forall|a: int, c: int| in_b(sz, a, c) implies #[trigger] cell_ok(
                b.cells@,
                sz,
                a,
                c,
            ) by {
                lemma_idx_bounds(sz, a, c);
            }
            assert forall|a: int, c: int| in_b(sz, a, c) implies !(#[trigger] mask_at(
                b.opened@,
                sz,
                a,
                c,
            )) && !mask_at(b.flagged@, sz, a, c) by {
                lemma_idx_bounds(sz, a, c);
            }
            assert(!mine_opened_of(b.cells@, b.opened@, sz)) by {
                if mine_opened_of(b.cells@, b.opened@, sz) {
                    let (mx, my) = choose|mx: int, my: int|
                        in_b(sz, mx, my) && #[trigger] mask_at(b.opened@, sz, mx, my) && b.cells@[my
                            * sz + mx] is Mine;
                    lemma_idx_bounds(sz, mx, my);
                }
            }
        }
        b.check_win();
        proof {
            let sz = size as int;
            if all_safe_opened_of(b.cells@, b.opened@, sz) {
                // with nothing opened, every cell must be a mine
                assert forall|j: int| 0 <= j < mines@.len() implies mines@[j] by {
                    lemma_flat_coords(sz, j);
                    assert(in_b(sz, j % sz, j / sz));
                    lemma_idx_bounds(sz, j % sz, j / sz);
                    assert(!mask_at(b.opened@, sz, j % sz, j / sz));
                    assert(b.cells@[(j / sz) * sz + (j % sz)] is Mine);
                }
                lemma_count_true_all(mines@);
            } else {
                if count_true(mines@) == sz * sz {
                    lemma_count_true_complete(mines@);
                    assert forall|a: int, c: int|
                        in_b(sz, a, c) && !(#[trigger] b.cells@[c * sz + a] is Mine) implies
                    mask_at(b.opened@, sz, a, c) by {
                        lemma_idx_bounds(sz, a, c);
                        assert(mines@[c * sz + a]);
                    }
                }
            }
        }
        proof {
            assert(b.wf());
            assert(mask_of(b.cells@) == mines@);
            assert(b.mine_total() == count_true(mines@));
            assert(b.game_won == (count_true(mines@) == b.total()));
        }
        Some(b)
    }

    /// Generate a fresh board with `mine_count` mines placed uniformly at
    /// random (rejection sampling, seeded from the clock) and numbering
    /// derived from the placement. Returns `None` exactly when `size` is
    /// zero, the cell count overflows, or `mine_count` leaves no free cell.
    pub fn new(size: usize, mine_count: usize) -> (r: Option<Minesweepers>)
        ensures
            (r is Some) <==> (size >= 1 && mine_count < size * size && size * size <= usize::MAX),
            r matches Some(b) ==> {
                &&& b.wf()
                &&& b.grid_size == size
                &&& b.mine_total() == mine_count
                &&& forall|j: int|
                    0 <= j < b.opened@.len() ==> !(#[trigger] b.opened@[j]) && !b.flagged@[j]
                &&& count_true(b.opened@) == 0
                &&& count_true(b.flagged@) == 0
                &&& !b.game_over
                &&& !b.game_won
                &&& !b.timer_started
            },
    {
        if size == 0 {
            return None;
        }
        let total = match size.checked_mul(size) {
            Some(t) => t,
            None => {
                return None;
            },
        };
        if mine_count >= total {
            return None;
        }
        let mut rng = rng_from_seed(time_seed());
        let mines = place_mines(size, mine_count, &mut rng);
        let r = Self::from_mine_layout(size, mines);
        match r {
            Some(b) => Some(b),
            None => {
                proof {
                    assert(false);
                }
                None
            },
        }
    }

    /// Discard and regenerate the whole board from the current size, with
    /// the fixed one-in-six mine density.
    #[verifier::rlimit(100)]
    pub fn reset(&mut self)
        requires
            old(self).wf(),
        ensures
            final(self).wf(),
            final(self).grid_size == old(self).grid_size,
            final(self).mine_total() == old(self).total() / 6,
            count_true(final(self).opened@) == 0,
            count_true(final(self).flagged@) == 0,
            !final(self).game_over,
            !final(self).game_won,
            !final(self).timer_started,
    {
        let size = self.grid_size;
        let n = self.cells.len();
        let total = size * size;
        let mine_count = total / 6;
        match Self::new(size, mine_count) {
            Some(b) => {
                *self = b;
            },
            None => {
                proof {
                    lemma_idx_bounds(size as int, 0, 0);
                    assert(mine_count < total) by (nonlinear_arith)
                        requires
                            total >= 1,
                            mine_count == total / 6,
                    ;
                    assert(false);
                }
            },
        }
    }

    /// Change the side length and regenerate, with the same density
    /// formula. The new size must be positive and small enough for the
    /// cell count to be representable.
    #[verifier::rlimit(100)]
    #[verifier::spinoff_prover]
    pub fn resize_and_reset(&mut self, new_size: usize)
        requires
            new_size >= 1,
            new_size * new_size <= usize::MAX,
        ensures
            final(self).wf(),
            final(self).grid_size == new_size,
            final(self).mine_total() == (new_size * new_size) as int / 6,
            !final(self).game_over,
            !final(self).game_won,
            !final(self).timer_started,
    {
        let total = new_size * new_size;
        let mine_count = total / 6;
        match Self::new(new_size, mine_count) {
            Some(b) => {
                *self = b;
            },
            None => {
                proof {
                    lemma_idx_bounds(new_size as int, 0, 0);
                    assert(mine_count < total) by (nonlinear_arith)
                        requires
                            total >= 1,
                            mine_count == total / 6,
                    ;
                    assert(false);
                }
            },
        }
    }
}

/// Law (cascade correctness, completeness direction): in a well-formed
/// board, any chain of Moore-adjacent cells that starts at an opened cell
/// and passes only through `Empty` cells ends at an opened cell. With
/// `opened_soundly` (nothing else opens) and `wf`'s closure, the opened
/// region after a reveal is exactly the maximal contiguous empty region
/// plus its bordering ring.
pub proof fn lemma_cascade_reaches(b: Minesweepers, path: Seq<(int, int)>)
    requires
        b.wf(),
        path.len() >= 1,
        in_b(b.side(), path[0].0, path[0].1),
        b.opened_at(path[0].0, path[0].1),
        forall|i: int|
            0 <= i < path.len() - 1 ==> {
                let p = #[trigger] path[i];
                &&& b.cell_at(p.0, p.1) is Empty
                &&& in_b(b.side(), path[i + 1].0, path[i + 1].1)
                &&& adjacent(p.0, p.1, path[i + 1].0, path[i + 1].1)
            },
    ensures
        forall|i: int|
            0 <= i < path.len() ==> b.opened_at((#[trigger] path[i]).0, path[i].1),
    decreases path.len(),
{
    let size = b.side();
    if path.len() >= 2 {
        let p0 = path[0];
        let p1 = path[1];
        let k = choose|k: int| 0 <= k < 8 && p1.0 == p0.0 + nbr_dx(k) && p1.1 == p0.1 + nbr_dy(k);
        assert(mask_at(b.opened@, size, p0.0, p0.1));
        assert(mask_at(b.opened@, size, p0.0 + nbr_dx(k), p0.1 + nbr_dy(k)));
        assert(b.opened_at(p1.0, p1.1));
        let rest = path.subrange(1, path.len() as int);
        assert forall|i: int|
            0 <= i < rest.len() - 1 implies {
            let p = #[trigger] rest[i];
            &&& b.cell_at(p.0, p.1) is Empty
            &&& in_b(size, rest[i + 1].0, rest[i + 1].1)
            &&& adjacent(p.0, p.1, rest[i + 1].0, rest[i + 1].1)
        } by {
            assert(rest[i] == path[i + 1]);
            assert(rest[i + 1] == path[i + 2]);
            assert(path[i + 1] == (#[trigger] path[i + 1]));
        }
        lemma_cascade_reaches(b, rest);
        assert forall|i: int|
            0 <= i < path.len() implies b.opened_at((#[trigger] path[i]).0, path[i].1) by {
            if i >= 1 {
                assert(rest[i - 1] == path[i]);
                assert(b.opened_at((rest[i - 1]).0, rest[i - 1].1));
            }
        }
    }
}

/// Law (win condition): a well-formed board is won exactly when it is not
/// lost and every non-mine cell is opened.
pub proof fn lemma_win_iff(b: Minesweepers)
    requires
        b.wf(),
    ensures
        b.game_won <==> (!b.game_over && forall|x: int, y: int|
            in_b(b.side(), x, y) && !(#[trigger] b.cell_at(x, y) is Mine) ==> b.opened_at(x, y)),
{
    let size = b.side();
    if b.game_won {
        assert forall|x: int, y: int|
            in_b(size, x, y) && !(#[trigger] b.cell_at(x, y) is Mine) implies b.opened_at(x, y) by {
            assert(mask_at(b.opened@, size, x, y));
        }
    } else {
        if !b.game_over && (forall|x: int, y: int|
            in_b(size, x, y) && !(#[trigger] b.cell_at(x, y) is Mine) ==> b.opened_at(x, y)) {
            assert forall|x: int, y: int|
                in_b(size, x, y) && !(#[trigger] b.cells@[y * size + x] is Mine) implies mask_at(
                b.opened@,
                size,
                x,
                y,
            ) by {
                assert(b.cell_at(x, y) == b.cells@[y * size + x]);
                assert(b.opened_at(x, y));
            }
            assert(all_safe_opened_of(b.cells@, b.opened@, size));
        }
    }
}

} // verus!