use vstd::prelude::*;
use itertools::Itertools;
use rand::seq::IteratorRandom;
use crate::grid::{
    Grid, Position, Tile, cell_at, in_bounds, lemma_cell_at, lemma_cell_index, occupied, tiles_wf,
    value_sum,
};

verus! {

/// Every cell of the grid holds a tile.
pub open spec fn board_full(size: int, s: Seq<Tile>) -> bool {
    forall|p: Position| in_bounds(size, p) ==> occupied(s, p)
}

/// The tile that a spawn creates: value 2 with identity `id` on `pos`.
pub open spec fn new_tile(id: u64, pos: Position) -> Tile {
    Tile { id, value: 2, pos }
}

/// `after` is what a spawn can leave from `before`: one value-2 tile added on
/// a cell that was empty, or, on a full board, `before` unchanged.
pub open spec fn spawn_outcome(size: int, before: Seq<Tile>, after: Seq<Tile>, id: u64) -> bool {
    if board_full(size, before) {
        after == before
    } else {
        exists|p: Position|
            in_bounds(size, p) && !occupied(before, p) && after == before.push(new_tile(id, p))
    }
}

/// Relies on itertools' `Itertools::cartesian_product`: the pairs of `0..size`
/// with itself, first component major, one cell per pair.
#[verifier::external_body]
fn all_cells(size: u8) -> (r: Vec<Position>)
    ensures
        r@.len() == size as int * size as int,
        forall|i: int| 0 <= i < r@.len() ==> #[trigger] r@[i] == cell_at(size as int, i),
{
    (0..size).cartesian_product(0..size).map(|(x, y)| Position { x, y }).collect()
}

/// Relies on rand's `IteratorRandom::choose` with the thread-local generator:
/// `None` exactly when there is nothing to choose from, else one of the items.
#[verifier::external_body]
fn choose_cell(cells: &Vec<Position>) -> (r: Option<Position>)
    ensures
        r is None <==> cells@.len() == 0,
        r is Some ==> cells@.contains(r->Some_0),
{
    let mut rng = rand::thread_rng();
    cells.iter().copied().choose(&mut rng)
}

/// Relies on rand's `IteratorRandom::choose_multiple` with the thread-local
/// generator: `amount` items, or all of them when there are fewer, sampled
/// without repetition.
#[verifier::external_body]
fn choose_cells(cells: &Vec<Position>, amount: usize) -> (r: Vec<Position>)
    ensures
        r@.len() == if amount <= cells@.len() {
            amount as int
        } else {
            cells@.len() as int
        },
        forall|i: int| 0 <= i < r@.len() ==> cells@.contains(#[trigger] r@[i]),
        cells@.no_duplicates() ==> r@.no_duplicates(),
{
    let mut rng = rand::thread_rng();
    cells.iter().copied().choose_multiple(&mut rng, amount)
}

/// Whether some tile of `tiles` lies on `p`.
pub fn is_occupied(tiles: &Vec<Tile>, p: Position) -> (r: bool)
    ensures
        r == occupied(tiles@, p),
{
    let mut i: usize = 0;
    while i < tiles.len()
        invariant
            i <= tiles.len(),
            forall|j: int| 0 <= j < i ==> tiles@[j].pos != p,
        decreases tiles.len() - i,
    {
        if tiles[i].pos == p {
            return true;
        }
        i = i + 1;
    }
    false
}

/// The cells of the grid that hold no tile, each once.
pub fn empty_cells(grid: &Grid, tiles: &Vec<Tile>) -> (r: Vec<Position>)
    requires
        grid.wf(),
    ensures
        forall|p: Position| #[trigger]
            r@.contains(p) <==> in_bounds(grid.size as int, p) && !occupied(tiles@, p),
        r@.no_duplicates(),
{
    let ghost size = grid.size as int;
    let cells = all_cells(grid.size);
    let mut r: Vec<Position> = Vec::new();
    let mut i: usize = 0;
    while i < cells.len()
        invariant
            size == grid.size,
            grid.wf(),
            cells@.len() == size * size,
            forall|j: int| 0 <= j < cells@.len() ==> #[trigger] cells@[j] == cell_at(size, j),
            i <= cells.len(),
            forall|p: Position| #[trigger]
                r@.contains(p) <==> exists|j: int|
                    0 <= j < i && cells@[j] == p && !occupied(tiles@, p),
            r@.no_duplicates(),
        decreases cells.len() - i,
    {
        let p = cells[i];
        if !is_occupied(tiles, p) {
            proof {
                assert forall|k: int| 0 <= k < r@.len() implies r@[k] != p by {
                    assert(r@.contains(r@[k]));
                    let j = choose|j: int| 0 <= j < i && cells@[j] == r@[k] && !occupied(tiles@, r@[k]);
                    lemma_cell_at(size, j);
                    lemma_cell_at(size, i as int);
                }
            }
            let ghost r0 = r@;
            r.push(p);
            proof {
                assert forall|q: Position| #[trigger] r@.contains(q) <==> exists|j: int|
                    0 <= j < i + 1 && cells@[j] == q && !occupied(tiles@, q) by {
                    if r@.contains(q) && q != p {
                        let k = choose|k: int| 0 <= k < r@.len() && r@[k] == q;
                        assert(r0[k] == q);
                        assert(r0.contains(q));
                    }
                    if exists|j: int| 0 <= j < i + 1 && cells@[j] == q && !occupied(tiles@, q) {
                        if q != p {
                            let j = choose|j: int| 0 <= j < i + 1 && cells@[j] == q && !occupied(tiles@, q);
                            assert(j < i);
                            assert(r0.contains(q));
                            let k = choose|k: int| 0 <= k < r0.len() && r0[k] == q;
                            assert(r@[k] == q);
                        } else {
                            assert(r@[r@.len() - 1] == q);
                        }
                    }
                }
            }
        }
        i = i + 1;
    }
    proof {
        assert forall|p: Position| #[trigger]
            r@.contains(p) <==> in_bounds(size, p) && !occupied(tiles@, p) by {
            if r@.contains(p) {
                let j = choose|j: int| 0 <= j < cells@.len() && cells@[j] == p && !occupied(tiles@, p);
                lemma_cell_at(size, j);
            }
            if in_bounds(size, p) && !occupied(tiles@, p) {
                lemma_cell_index(size, p);
                let j = p.x as int * size + p.y as int;
                assert(cells@[j] == p);
            }
        }
    }
    r
}

/// Puts a new value-2 tile with identity `id` on the empty cell `pos`.
pub fn place_tile(grid: &Grid, tiles: &mut Vec<Tile>, pos: Position, id: u64)
    requires
        in_bounds(grid.size as int, pos),
        !occupied(old(tiles)@, pos),
    ensures
        final(tiles)@ == old(tiles)@.push(new_tile(id, pos)),
{
    tiles.push(Tile { id, value: 2, pos });
}

/// Spawn correctness: a tile put on an empty cell keeps the tile set
/// well-formed, adds exactly one tile, and adds exactly 2 to the sum of the
/// values.
pub proof fn lemma_spawn_correct(size: int, t: Seq<Tile>, pos: Position, id: u64)
    requires
        tiles_wf(size, t),
        in_bounds(size, pos),
        !occupied(t, pos),
    ensures
        tiles_wf(size, t.push(new_tile(id, pos))),
        t.push(new_tile(id, pos)).len() == t.len() + 1,
        value_sum(t.push(new_tile(id, pos))) == value_sum(t) + 2,
{
    let u = t.push(new_tile(id, pos));
    assert(u.drop_last() =~= t);
    assert(crate::grid::is_pow2(1));
    assert(crate::grid::is_pow2(2));
    assert forall|i: int, j: int|
        0 <= i < u.len() && 0 <= j < u.len() && i != j implies #[trigger] u[i].pos
        != #[trigger] u[j].pos by {
        if i < t.len() && j < t.len() {
            assert(u[i] == t[i] && u[j] == t[j]);
        } else if i < t.len() {
            assert(u[i] == t[i]);
        } else {
            assert(u[j] == t[j]);
        }
    }
    assert forall|i: int| 0 <= i < u.len() implies in_bounds(size, #[trigger] u[i].pos) by {
        if i < t.len() {
            assert(u[i] == t[i]);
        }
    }
    assert forall|i: int| 0 <= i < u.len() implies crate::grid::valid_value(
        #[trigger] u[i].value as int) by {
        if i < t.len() {
            assert(u[i] == t[i]);
        }
    }
}

/// Spawns a value-2 tile with identity `id` on an empty cell chosen at
/// random, and returns that cell; on a full board nothing changes and the
/// result is `None`.
pub fn spawn_tile(grid: &Grid, tiles: &mut Vec<Tile>, id: u64) -> (r: Option<Position>)
    requires
        grid.wf(),
    ensures
        r is None <==> board_full(grid.size as int, old(tiles)@),
        r is None ==> final(tiles)@ == old(tiles)@,
        r is Some ==> in_bounds(grid.size as int, r->Some_0) && !occupied(
            old(tiles)@,
            r->Some_0,
        ) && final(tiles)@ == old(tiles)@.push(new_tile(id, r->Some_0)),
        spawn_outcome(grid.size as int, old(tiles)@, final(tiles)@, id),
{
    let cells = empty_cells(grid, tiles);
    let choice = choose_cell(&cells);
    match choice {
        Some(pos) => {
            proof {
                assert(cells@.contains(pos));
            }
            place_tile(grid, tiles, pos, id);
            assert(!board_full(grid.size as int, old(tiles)@));
            Some(pos)
        },
        None => {
            assert forall|p: Position| in_bounds(grid.size as int, p) implies occupied(
                old(tiles)@,
                p,
            ) by {
                if !occupied(old(tiles)@, p) {
                    assert(cells@.contains(p));
                }
            }
            None
        },
    }
}

/// The opening tiles: two value-2 tiles, with identities 0 and 1, on two
/// distinct cells chosen at random.
pub fn initial_tiles(grid: &Grid) -> (r: Vec<Tile>)
    requires
        grid.wf(),
    ensures
        r@.len() == 2,
        tiles_wf(grid.size as int, r@),
        forall|i: int| 0 <= i < 2 ==> #[trigger] r@[i] == new_tile(i as u64, r@[i].pos),
{
    let ghost size = grid.size as int;
    let cells = all_cells(grid.size);
    proof {
        assert(size * size >= 4) by (nonlinear_arith)
            requires
                size >= 2,
        ;
        assert forall|i: int, j: int|
            0 <= i < cells@.len() && 0 <= j < cells@.len() && i != j implies cells@[i]
            != cells@[j] by {
            lemma_cell_at(size, i);
            lemma_cell_at(size, j);
        }
    }
    let picks = choose_cells(&cells, 2);
    let mut tiles: Vec<Tile> = Vec::new();
    let mut i: usize = 0;
    while i < picks.len()
        invariant
            size == grid.size,
            grid.wf(),
            picks@.len() == 2,
            picks@.no_duplicates(),
            forall|k: int| 0 <= k < picks@.len() ==> cells@.contains(#[trigger] picks@[k]),
            forall|k: int| 0 <= k < cells@.len() ==> #[trigger] cells@[k] == cell_at(size, k),
            cells@.len() == size * size,
            i <= picks.len(),
            tiles@.len() == i,
            tiles_wf(size, tiles@),
            forall|k: int| 0 <= k < i ==> #[trigger] tiles@[k] == new_tile(k as u64, picks@[k]),
        decreases picks.len() - i,
    {
        let pos = picks[i];
        proof {
            let j = choose|j: int| 0 <= j < cells@.len() && cells@[j] == pos;
            lemma_cell_at(size, j);
            if occupied(tiles@, pos) {
                let k = choose|k: int| 0 <= k < tiles@.len() && tiles@[k].pos == pos;
                assert(tiles@[k] == new_tile(k as u64, picks@[k]));
            }
            lemma_spawn_correct(size, tiles@, pos, i as u64);
        }
        place_tile(grid, &mut tiles, pos, i as u64);
        i = i + 1;
    }
    tiles
}

} // verus!
