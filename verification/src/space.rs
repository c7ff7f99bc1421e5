//! Grid geometry: square-board coordinates, the Moore neighborhood, and
//! counting over per-cell boolean masks (mines, flags, opened cells).
use vstd::prelude::*;

verus! {

/// `(x, y)` lies on a square board of the given side length.
pub open spec fn in_b(size: int, x: int, y: int) -> bool {
    0 <= x < size && 0 <= y < size
}

/// Horizontal offset of the `k`-th Moore neighbor, `k` in `[0, 8)`.
/// The order is row by row: (-1,-1), (0,-1), (1,-1), (-1,0), (1,0),
/// (-1,1), (0,1), (1,1). Neighbor `k` and neighbor `7 - k` are opposites.
pub open spec fn nbr_dx(k: int) -> int {
    if k == 0 || k == 3 || k == 5 {
        -1
    } else if k == 2 || k == 4 || k == 7 {
        1
    } else {
        0
    }
}

/// Vertical offset of the `k`-th Moore neighbor.
pub open spec fn nbr_dy(k: int) -> int {
    if k <= 2 {
        -1
    } else if k <= 4 {
        0
    } else {
        1
    }
}

/// Two distinct coordinates touch (Moore neighborhood, no wraparound).
pub open spec fn adjacent(x1: int, y1: int, x2: int, y2: int) -> bool {
    exists|k: int| 0 <= k < 8 && x2 == x1 + nbr_dx(k) && y2 == y1 + nbr_dy(k)
}

/// The mask holds at `(x, y)`: in bounds and set. Cells are stored row by
/// row, so `(x, y)` lives at flat index `y * size + x`.
pub open spec fn mask_at(m: Seq<bool>, size: int, x: int, y: int) -> bool {
    in_b(size, x, y) && m[y * size + x]
}

/// 0/1 indicator of `mask_at`.
pub open spec fn mask_ind(m: Seq<bool>, size: int, x: int, y: int) -> int {
    if mask_at(m, size, x, y) {
        1
    } else {
        0
    }
}

/// How many of the first `k` Moore neighbors of `(x, y)` are set in `m`.
pub open spec fn nbr_count_upto(m: Seq<bool>, size: int, x: int, y: int, k: int) -> int
    decreases k,
{
    if k <= 0 {
        0
    } else {
        nbr_count_upto(m, size, x, y, k - 1) + mask_ind(
            m,
            size,
            x + nbr_dx(k - 1),
            y + nbr_dy(k - 1),
        )
    }
}

/// How many Moore neighbors of `(x, y)` are set in `m` (between 0 and 8).
pub open spec fn nbr_count(m: Seq<bool>, size: int, x: int, y: int) -> int {
    nbr_count_upto(m, size, x, y, 8)
}

/// How many entries of `m` are `true`.
pub open spec fn count_true(m: Seq<bool>) -> int
    decreases m.len(),
{
    if m.len() == 0 {
        0
    } else {
        count_true(m.drop_last()) + if m.last() {
            1int
        } else {
            0int
        }
    }
}

pub proof fn lemma_idx_bounds(size: int, x: int, y: int)
    requires
        in_b(size, x, y),
    ensures
        0 <= y * size + x < size * size,
{
    assert(y * size + x < size * size) by (nonlinear_arith)
        requires
            0 <= x < size,
            0 <= y < size,
    ;
}

pub proof fn lemma_idx_inj(size: int, x1: int, y1: int, x2: int, y2: int)
    requires
        in_b(size, x1, y1),
        in_b(size, x2, y2),
        y1 * size + x1 == y2 * size + x2,
    ensures
        x1 == x2,
        y1 == y2,
{
    assert(y1 == y2) by (nonlinear_arith)
        requires
            0 <= x1 < size,
            0 <= x2 < size,
            0 <= y1 < size,
            0 <= y2 < size,
            y1 * size + x1 == y2 * size + x2,
    ;
}

/// Opposite neighbors: offset `7 - k` undoes offset `k`.
pub proof fn lemma_nbr_sym(k: int)
    requires
        0 <= k < 8,
    ensures
        nbr_dx(7 - k) == -nbr_dx(k),
        nbr_dy(7 - k) == -nbr_dy(k),
{
}

pub proof fn lemma_nbr_count_upto_bounds(m: Seq<bool>, size: int, x: int, y: int, k: int)
    requires
        k >= 0,
    ensures
        0 <= nbr_count_upto(m, size, x, y, k) <= k,
    decreases k,
{
    if k > 0 {
        lemma_nbr_count_upto_bounds(m, size, x, y, k - 1);
    }
}

pub proof fn lemma_nbr_count_upto_mono(m: Seq<bool>, size: int, x: int, y: int, k1: int, k2: int)
    requires
        0 <= k1 <= k2,
    ensures
        nbr_count_upto(m, size, x, y, k1) <= nbr_count_upto(m, size, x, y, k2),
    decreases k2,
{
    if k1 < k2 {
        lemma_nbr_count_upto_mono(m, size, x, y, k1, k2 - 1);
    }
}

/// A neighborhood with count zero has no set neighbor at any offset.
pub proof fn lemma_nbr_count_zero_at(m: Seq<bool>, size: int, x: int, y: int, k: int)
    requires
        nbr_count(m, size, x, y) == 0,
        0 <= k < 8,
    ensures
        !mask_at(m, size, x + nbr_dx(k), y + nbr_dy(k)),
{
    lemma_nbr_count_upto_bounds(m, size, x, y, k);
    lemma_nbr_count_upto_mono(m, size, x, y, k + 1, 8);
}

pub proof fn lemma_count_true_bounds(m: Seq<bool>)
    ensures
        0 <= count_true(m) <= m.len(),
    decreases m.len(),
{
    if m.len() > 0 {
        lemma_count_true_bounds(m.drop_last());
    }
}

pub proof fn lemma_count_true_update(m: Seq<bool>, i: int, v: bool)
    requires
        0 <= i < m.len(),
    ensures
        count_true(m.update(i, v)) == count_true(m) - (if m[i] {
            1int
        } else {
            0int
        }) + (if v {
            1int
        } else {
            0int
        }),
    decreases m.len(),
{
    let mu = m.update(i, v);
    if i == m.len() - 1 {
        assert(mu.drop_last() =~= m.drop_last());
    } else {
        assert(mu.drop_last() =~= m.drop_last().update(i, v));
        lemma_count_true_update(m.drop_last(), i, v);
    }
}

pub proof fn lemma_count_true_all(m: Seq<bool>)
    requires
        forall|j: int| 0 <= j < m.len() ==> m[j],
    ensures
        count_true(m) == m.len(),
    decreases m.len(),
{
    if m.len() > 0 {
        lemma_count_true_all(m.drop_last());
    }
}


pub proof fn lemma_idx_lex(size: int, a: int, b: int, x: int, y: int)
    requires
        0 <= a < size,
        0 <= b,
        0 <= x <= size,
        0 <= y,
        b < y || (b == y && a < x),
    ensures
        0 <= b * size + a < y * size + x,
{
    assert(b * size + a < y * size + x) by (nonlinear_arith)
        requires
            0 <= a < size,
            0 <= b,
            0 <= x <= size,
            0 <= y,
            b < y || (b == y && a < x),
    ;
}

/// Recover the coordinates of a flat index.
pub proof fn lemma_flat_coords(size: int, i: int)
    requires
        size >= 1,
        0 <= i < size * size,
    ensures
        in_b(size, i % size, i / size),
        (i / size) * size + (i % size) == i,
{
    assert(0 <= i % size < size && (i / size) * size + (i % size) == i) by (nonlinear_arith)
        requires
            size >= 1,
            0 <= i,
    ;
    assert(i / size < size) by (nonlinear_arith)
        requires
            size >= 1,
            0 <= i < size * size,
    ;
}

pub proof fn lemma_count_true_complete(m: Seq<bool>)
    requires
        count_true(m) == m.len(),
    ensures
        forall|j: int| 0 <= j < m.len() ==> m[j],
    decreases m.len(),
{
    if m.len() > 0 {
        lemma_count_true_bounds(m.drop_last());
        lemma_count_true_complete(m.drop_last());
        assert forall|j: int| 0 <= j < m.len() implies m[j] by {
            if j < m.len() - 1 {
                assert(m.drop_last()[j]);
            }
        }
    }
}

/// Computes the coordinates of the `k`-th Moore neighbor of `(x, y)`, or
/// `None` when that offset falls off the board.
pub fn neighbor(size: usize, x: usize, y: usize, k: usize) -> (r: Option<(usize, usize)>)
    requires
        x < size,
        y < size,
        k < 8,
    ensures
        match r {
            Some(p) => p.0 < size && p.1 < size && p.0 as int == x + nbr_dx(k as int) && p.1
                as int == y + nbr_dy(k as int),
            None => !in_b(size as int, x + nbr_dx(k as int), y + nbr_dy(k as int)),
        },
{
    match k {
        0 => if x >= 1 && y >= 1 {
            Some((x - 1, y - 1))
        } else {
            None
        },
        1 => if y >= 1 {
            Some((x, y - 1))
        } else {
            None
        },
        2 => if x + 1 < size && y >= 1 {
            Some((x + 1, y - 1))
        } else {
            None
        },
        3 => if x >= 1 {
            Some((x - 1, y))
        } else {
            None
        },
        4 => if x + 1 < size {
            Some((x + 1, y))
        } else {
            None
        },
        5 => if x >= 1 && y + 1 < size {
            Some((x - 1, y + 1))
        } else {
            None
        },
        6 => if y + 1 < size {
            Some((x, y + 1))
        } else {
            None
        },
        _ => if x + 1 < size && y + 1 < size {
            Some((x + 1, y + 1))
        } else {
            None
        },
    }
}

} // verus!
