use vstd::prelude::*;
use vstd::arithmetic::div_mod::{lemma_fundamental_div_mod, lemma_fundamental_div_mod_converse};

verus! {

/// Largest tile value the engine represents; a move never doubles a tile
/// above it.
pub const MAX_VALUE: u32 = 0x8000_0000;

/// A cell of the grid: column `x`, row `y`.
#[derive(Clone, Copy, Debug, PartialEq, Eq, Structural)]
pub struct Position {
    pub x: u8,
    pub y: u8,
}

/// A numbered tile: an opaque identity, its value and where it lies.
#[derive(Clone, Copy, Debug, PartialEq, Eq, Structural)]
pub struct Tile {
    pub id: u64,
    pub value: u32,
    pub pos: Position,
}

/// The coordinate space: a `size` x `size` square, fixed once created.
#[derive(Clone, Copy, Debug, PartialEq, Eq, Structural)]
pub struct Grid {
    pub size: u8,
}

/// Errors of setting up a game.
#[derive(Clone, Copy, Debug, PartialEq, Eq, Structural)]
pub enum ConfigError {
    /// A grid side below 2.
    InvalidConfiguration,
    /// A starting tile set that is not well-formed for the grid.
    InvalidTiles,
}

/// `v` is a power of two.
pub open spec fn is_pow2(v: int) -> bool
    decreases v,
{
    if v <= 1 {
        v == 1
    } else {
        v % 2 == 0 && is_pow2(v / 2)
    }
}

/// Doubling keeps a power of two.
pub proof fn lemma_pow2_double(v: int)
    requires
        v >= 1,
        is_pow2(v),
    ensures
        is_pow2(2 * v),
{
    assert((2 * v) / 2 == v);
}

pub open spec fn in_bounds(size: int, p: Position) -> bool {
    p.x < size && p.y < size
}

/// A tile value the engine accepts: a power of two, at least 2, at most
/// `MAX_VALUE`.
pub open spec fn valid_value(v: int) -> bool {
    2 <= v <= MAX_VALUE && is_pow2(v)
}

/// No two tiles of `s` share a cell.
pub open spec fn unique_positions(s: Seq<Tile>) -> bool {
    forall|i: int, j: int|
        0 <= i < s.len() && 0 <= j < s.len() && i != j ==> #[trigger] s[i].pos != #[trigger] s[j].pos
}

/// A well-formed tile set for a grid of side `size`: every tile in bounds
/// with a valid value, and at most one tile per cell.
pub open spec fn tiles_wf(size: int, s: Seq<Tile>) -> bool {
    &&& forall|i: int| 0 <= i < s.len() ==> in_bounds(size, #[trigger] s[i].pos)
    &&& forall|i: int| 0 <= i < s.len() ==> valid_value(#[trigger] s[i].value as int)
    &&& unique_positions(s)
}

/// Some tile of `s` lies on `p`.
pub open spec fn occupied(s: Seq<Tile>, p: Position) -> bool {
    exists|i: int| 0 <= i < s.len() && #[trigger] s[i].pos == p
}

/// Sum of the tile values of `s`.
pub open spec fn value_sum(s: Seq<Tile>) -> int
    decreases s.len(),
{
    if s.len() == 0 {
        0
    } else {
        value_sum(s.drop_last()) + s.last().value
    }
}

/// The cell at index `i` of a grid of side `size`, counting cells with `x`
/// major and `y` minor.
pub open spec fn cell_at(size: int, i: int) -> Position {
    Position { x: (i / size) as u8, y: (i % size) as u8 }
}

impl Grid {
    pub open spec fn wf(&self) -> bool {
        self.size >= 2
    }

    /// Creates a grid of side `size`; a side below 2 is a configuration error.
    pub fn create_grid(size: u8) -> (r: Result<Grid, ConfigError>)
        ensures
            size >= 2 <==> r is Ok,
            r is Ok ==> r->Ok_0.size == size && r->Ok_0.wf(),
            r is Err ==> r->Err_0 == ConfigError::InvalidConfiguration,
    {
        if size >= 2 {
            Ok(Grid { size })
        } else {
            Err(ConfigError::InvalidConfiguration)
        }
    }

    pub fn is_in_bounds(&self, x: u8, y: u8) -> (r: bool)
        ensures
            r == in_bounds(self.size as int, Position { x, y }),
    {
        x < self.size && y < self.size
    }

    /// Index of an in-bounds cell, counting with `x` major and `y` minor.
    pub fn cell_index(&self, p: Position) -> (r: usize)
        requires
            in_bounds(self.size as int, p),
        ensures
            r == p.x as int * self.size as int + p.y as int,
            r < self.size as int * self.size as int,
            cell_at(self.size as int, r as int) == p,
    {
        proof {
            lemma_cell_index(self.size as int, p);
            assert((p.x as int) * (self.size as int) + (p.y as int) <= 255 * 255) by (nonlinear_arith)
                requires
                    p.x < self.size,
                    p.y < self.size,
                    self.size <= 255,
            ;
        }
        p.x as usize * self.size as usize + p.y as usize
    }
}

/// The cell at index `i` lies in the grid, and `i` is its index.
pub proof fn lemma_cell_at(size: int, i: int)
    requires
        1 <= size <= 255,
        0 <= i < size * size,
    ensures
        in_bounds(size, cell_at(size, i)),
        cell_at(size, i).x as int * size + cell_at(size, i).y as int == i,
{
    lemma_fundamental_div_mod(i, size);
    vstd::arithmetic::div_mod::lemma_div_pos_is_pos(i, size);
    let q = i / size;
    let r = i % size;
    assert(0 <= r < size);
    assert(q < size) by (nonlinear_arith)
        requires
            i == size * q + r,
            0 <= r,
            i < size * size,
            0 < size,
    ;
    assert(size * (i / size) == (i / size) * size) by (nonlinear_arith);
}

/// An in-bounds cell is the cell at its index.
pub proof fn lemma_cell_index(size: int, p: Position)
    requires
        1 <= size <= 255,
        in_bounds(size, p),
    ensures
        0 <= p.x as int * size + (p.y as int) < size * size,
        cell_at(size, p.x as int * size + p.y as int) == p,
{
    let i = p.x as int * size + p.y as int;
    lemma_fundamental_div_mod_converse(i, size, p.x as int, p.y as int);
    assert(p.x as int * size + (p.y as int) < size * size) by (nonlinear_arith)
        requires
            p.x < size,
            p.y < size,
    ;
}

} // verus!
