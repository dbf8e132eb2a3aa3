//! The fixed square grid of cells that particles are sorted into.
//!
//! A cell is one unit wide, the same as the interaction radius of the
//! particles, so everything that can influence a point lies in the 3x3 block
//! of cells around the cell of that point.

use vstd::prelude::*;
use vstd::arithmetic::power2::{pow2, lemma2_to64, lemma_pow2_adds, lemma_pow2_pos};
use crate::binary32::{
    less,
    nan,
    nearest_integer,
    round_to_index,
    scaled,
    unit,
    lemma_minus_half,
    lemma_nearest_integer_bounds,
    lemma_reading,
    MINUS_HALF,
};

verus! {

/// Number of cells along one side of the grid.
pub const CHUNK_SIZE: usize = 64;

/// Number of cells in the whole grid.
pub const CHUNK_CELLS: usize = CHUNK_SIZE * CHUNK_SIZE;

/// The pattern of the grid's side plus one half, the upper edge of the
/// positions that have a cell coordinate.
pub const DOMAIN_EDGE: u32 = 0x4281_0000;

/// Integer coordinates of a cell.
#[derive(Clone, Copy, Debug, PartialEq, Eq, Structural)]
pub struct CellCoord {
    pub x: u32,
    pub y: u32,
}

/// The cell that a particle was last filed under.
#[derive(Clone, Copy, Debug, PartialEq, Eq, Structural)]
pub struct ChunkPosition {
    pub pos: CellCoord,
}

impl Default for ChunkPosition {
    fn default() -> (origin: Self)
        ensures
            origin.pos.x == 0,
            origin.pos.y == 0,
    {
        ChunkPosition { pos: CellCoord { x: 0, y: 0 } }
    }
}

/// Whether a coordinate, given as a single-precision pattern, lies strictly
/// between minus one half and the grid's side plus one half.
pub open spec fn in_cell_domain(bits: u32) -> bool {
    &&& !nan(bits)
    &&& -unit() < 2 * scaled(bits)
    &&& 2 * scaled(bits) < (2 * CHUNK_SIZE + 1) * unit()
}

/// The cell coordinate of a position: each axis rounded to the nearest
/// integer, where both axes lie in the domain. The result can be
/// `CHUNK_SIZE` on an axis, one past the last cell.
pub open spec fn cell_of(x: u32, y: u32) -> Option<CellCoord> {
    if in_cell_domain(x) && in_cell_domain(y) {
        Some(CellCoord { x: nearest_integer(x) as u32, y: nearest_integer(y) as u32 })
    } else {
        None
    }
}

/// The cell that a particle at `(x, y)` is filed under: the cell coordinate
/// of the position, where this names a cell of the grid.
pub open spec fn home_cell(x: u32, y: u32) -> Option<CellCoord> {
    match cell_of(x, y) {
        Some(c) => if valid_cell(c.x as int, c.y as int) {
            Some(c)
        } else {
            None
        },
        None => None,
    }
}

/// The two coordinates are numbers and differ by at most one, the
/// interaction radius.
pub open spec fn within_one(a: u32, b: u32) -> bool {
    !nan(a) && !nan(b) && -unit() <= scaled(a) - scaled(b) <= unit()
}

/// Coordinates that differ by at most one round to integers that differ by
/// at most one: what can influence a point is filed under the cell of the
/// point or under a cell next to it.
pub proof fn lemma_near_coordinates(a: u32, b: u32)
    requires
        within_one(a, b),
    ensures
        -1 <= nearest_integer(a) - nearest_integer(b) <= 1,
{
    let u = unit();
    let na = nearest_integer(a);
    let nb = nearest_integer(b);
    lemma_pow2_pos(149);
    lemma_nearest_integer_bounds(a);
    lemma_nearest_integer_bounds(b);
    assert(na - nb <= 1) by (nonlinear_arith)
        requires
            (2 * na - 1) * u < (2 * nb + 1) * u + 2 * u,
            u > 0,
    ;
    assert(nb - na <= 1) by (nonlinear_arith)
        requires
            (2 * nb - 1) * u < (2 * na + 1) * u + 2 * u,
            u > 0,
    ;
}

/// [`DOMAIN_EDGE`] is the grid's side plus one half.
pub proof fn lemma_domain_edge()
    ensures
        2 * scaled(DOMAIN_EDGE) == (2 * CHUNK_SIZE + 1) * unit(),
{
    lemma_reading(DOMAIN_EDGE, 133, 0x1_0000);
    lemma2_to64();
    lemma_pow2_adds(17, 132);
    assert(unit() == 0x2_0000 * pow2(132));
    assert((2 * CHUNK_SIZE + 1) * unit() == 129 * unit());
}

/// Within the domain the nearest integer is at most `CHUNK_SIZE`.
pub proof fn lemma_cell_coordinate_range(bits: u32)
    requires
        in_cell_domain(bits),
    ensures
        0 <= nearest_integer(bits) <= CHUNK_SIZE,
{
    let n = nearest_integer(bits);
    let u = unit();
    lemma_nearest_integer_bounds(bits);
    lemma_pow2_pos(149);
    assert(n >= 0) by (nonlinear_arith)
        requires
            -u < (2 * n + 1) * u,
            u > 0,
    ;
    assert(n <= 64) by (nonlinear_arith)
        requires
            (2 * n - 1) * u < 129 * u,
            u > 0,
    ;
}

/// Whether the integer pair names a cell of the grid.
pub open spec fn valid_cell(x: int, y: int) -> bool {
    0 <= x < CHUNK_SIZE && 0 <= y < CHUNK_SIZE
}

/// Position of cell `(x, y)` in the cell array.
pub open spec fn cell_index(x: int, y: int) -> int {
    x + y * CHUNK_SIZE
}

/// Offset of the `k`-th cell of a 3x3 block from its centre, for `k` in
/// `0..9`. The cells are listed column by column:
/// `(-1,-1), (-1,0), (-1,1), (0,-1), (0,0), (0,1), (1,-1), (1,0), (1,1)`.
pub open spec fn neighborhood_offset(k: int) -> (int, int) {
    (k / 3 - 1, k % 3 - 1)
}

/// Offset of the `k`-th of the eight cells around a centre, for `k` in
/// `0..8`: the order of [`neighborhood_offset`] with the centre left out.
pub open spec fn neighbor_offset(k: int) -> (int, int) {
    if k < 4 {
        neighborhood_offset(k)
    } else {
        neighborhood_offset(k + 1)
    }
}

/// A square grid holding one `T` per cell.
pub struct Chunk<T> {
    pub cells: [T; CHUNK_CELLS],
}

impl<T> Chunk<T> {
    /// The content of cell `(x, y)`, or `None` where the pair names no cell.
    /// There is no wraparound.
    pub open spec fn cell_at(&self, x: int, y: int) -> Option<&T> {
        if valid_cell(x, y) {
            Some(&self.cells@[cell_index(x, y)])
        } else {
            None
        }
    }

    /// The cell coordinate of the position `(x, y)`, given as
    /// single-precision patterns.
    pub fn get_chunk_pos(x: u32, y: u32) -> (pos: Option<CellCoord>)
        ensures
            pos == cell_of(x, y),
            pos matches Some(c) ==> c.x <= CHUNK_SIZE && c.y <= CHUNK_SIZE,
    {
        proof {
            lemma_minus_half();
            lemma_domain_edge();
            lemma_pow2_pos(149);
            assert((2 * CHUNK_SIZE + 1) * unit() == 129 * unit());
        }
        if less(MINUS_HALF, x) && less(x, DOMAIN_EDGE) && less(MINUS_HALF, y) && less(
            y,
            DOMAIN_EDGE,
        ) {
            proof {
                lemma_cell_coordinate_range(x);
                lemma_cell_coordinate_range(y);
            }
            Some(CellCoord { x: round_to_index(x), y: round_to_index(y) })
        } else {
            None
        }
    }

    /// Whether `(x, y)` names a cell of the grid.
    pub fn is_valid_pos(x: usize, y: usize) -> (ok: bool)
        ensures
            ok == valid_cell(x as int, y as int),
    {
        x < CHUNK_SIZE && y < CHUNK_SIZE
    }

    /// The place of cell `(x, y)` in the cell array, or `None` where the
    /// pair names no cell.
    pub fn index(x: usize, y: usize) -> (i: Option<usize>)
        ensures
            match i {
                Some(k) => valid_cell(x as int, y as int) && k == cell_index(x as int, y as int)
                    && k < CHUNK_CELLS,
                None => !valid_cell(x as int, y as int),
            },
    {
        if !Self::is_valid_pos(x, y) {
            return None;
        }
        Some(x + y * CHUNK_SIZE)
    }

    /// The content of cell `(x, y)`, or `None` where the pair names no cell.
    pub fn get(&self, x: usize, y: usize) -> (cell: Option<&T>)
        ensures
            cell == self.cell_at(x as int, y as int),
    {
        match Self::index(x, y) {
            Some(i) => Some(&self.cells[i]),
            None => None,
        }
    }

    /// The content of cell `(x, y)` for writing, or `None` where the pair
    /// names no cell. Whatever is written, no other cell changes.
    pub fn get_mut(&mut self, x: usize, y: usize) -> (cell: Option<&mut T>)
        ensures
            match cell {
                Some(slot) => {
                    &&& valid_cell(x as int, y as int)
                    &&& *slot == old(self).cells@[cell_index(x as int, y as int)]
                    &&& final(self).cells@ == old(self).cells@.update(
                        cell_index(x as int, y as int),
                        *final(slot),
                    )
                },
                None => !valid_cell(x as int, y as int) && *final(self) == *old(self),
            },
    {
        match Self::index(x, y) {
            Some(i) => Some(&mut self.cells[i]),
            None => None,
        }
    }

    /// The `k`-th cell of the 3x3 block around `(x, y)`.
    fn block_cell(&self, x: usize, y: usize, k: usize) -> (cell: Option<&T>)
        requires
            k < 9,
        ensures
            cell == self.cell_at(
                x + neighborhood_offset(k as int).0,
                y + neighborhood_offset(k as int).1,
            ),
    {
        let column: usize = k / 3;
        let row: usize = k % 3;
        if (column == 0 && x == 0) || (column == 2 && x >= CHUNK_SIZE - 1) {
            return None;
        }
        if (row == 0 && y == 0) || (row == 2 && y >= CHUNK_SIZE - 1) {
            return None;
        }
        let nx: usize = if column == 0 {
            x - 1
        } else if column == 1 {
            x
        } else {
            x + 1
        };
        let ny: usize = if row == 0 {
            y - 1
        } else if row == 1 {
            y
        } else {
            y + 1
        };
        self.get(nx, ny)
    }

    /// The eight cells around `(x, y)`, in the order of [`neighbor_offset`];
    /// `None` stands for a cell that would lie outside the grid.
    pub fn get_neighbors(&self, x: usize, y: usize) -> (around: [Option<&T>; 8])
        ensures
            forall|k: int|
                0 <= k < 8 ==> #[trigger] around@[k] == self.cell_at(
                    x + neighbor_offset(k).0,
                    y + neighbor_offset(k).1,
                ),
    {
        [
            self.block_cell(x, y, 0),
            self.block_cell(x, y, 1),
            self.block_cell(x, y, 2),
            self.block_cell(x, y, 3),
            self.block_cell(x, y, 5),
            self.block_cell(x, y, 6),
            self.block_cell(x, y, 7),
            self.block_cell(x, y, 8),
        ]
    }

    /// The cell `(x, y)` and the eight around it, in the order of
    /// [`neighborhood_offset`]; `None` stands for a cell that would lie
    /// outside the grid.
    pub fn get_neighborhood(&self, x: usize, y: usize) -> (block: [Option<&T>; 9])
        ensures
            forall|k: int|
                0 <= k < 9 ==> #[trigger] block@[k] == self.cell_at(
                    x + neighborhood_offset(k).0,
                    y + neighborhood_offset(k).1,
                ),
    {
        [
            self.block_cell(x, y, 0),
            self.block_cell(x, y, 1),
            self.block_cell(x, y, 2),
            self.block_cell(x, y, 3),
            self.block_cell(x, y, 4),
            self.block_cell(x, y, 5),
            self.block_cell(x, y, 6),
            self.block_cell(x, y, 7),
            self.block_cell(x, y, 8),
        ]
    }
}

} // verus!
