use vstd::prelude::*;
use crate::grid::{ConfigError, Grid, MAX_VALUE, Tile, in_bounds, tiles_wf, valid_value};
use crate::moves::{MoveTiles, mergeable, resolve_move};
use crate::perm::same_tiles;
use crate::spawn::{initial_tiles, lemma_spawn_correct, spawn_outcome, spawn_tile};

verus! {

/// A raw key as an input adapter reports it.
#[derive(Clone, Copy, Debug, PartialEq, Eq, Structural)]
pub enum Key {
    ArrowLeft,
    ArrowRight,
    ArrowUp,
    ArrowDown,
    Other,
}

/// A key that names no move.
#[derive(Clone, Copy, Debug, PartialEq, Eq, Structural)]
pub enum InputError {
    NotAnArrowKey,
}

/// The move that the keys pressed in one turn ask for: Left before Right
/// before Up before Down; none when no arrow key is pressed.
pub open spec fn command_of(keys: Seq<Key>) -> Option<MoveTiles> {
    if keys.contains(Key::ArrowLeft) {
        Some(MoveTiles::Left)
    } else if keys.contains(Key::ArrowRight) {
        Some(MoveTiles::Right)
    } else if keys.contains(Key::ArrowUp) {
        Some(MoveTiles::Up)
    } else if keys.contains(Key::ArrowDown) {
        Some(MoveTiles::Down)
    } else {
        None
    }
}

impl MoveTiles {
    /// The move an arrow key stands for.
    pub fn try_from_key(key: &Key) -> (r: Result<MoveTiles, InputError>)
        ensures
            *key == Key::ArrowLeft <==> r == Ok::<MoveTiles, InputError>(MoveTiles::Left),
            *key == Key::ArrowRight <==> r == Ok::<MoveTiles, InputError>(MoveTiles::Right),
            *key == Key::ArrowUp <==> r == Ok::<MoveTiles, InputError>(MoveTiles::Up),
            *key == Key::ArrowDown <==> r == Ok::<MoveTiles, InputError>(MoveTiles::Down),
            *key == Key::Other <==> r == Err::<MoveTiles, InputError>(InputError::NotAnArrowKey),
    {
        match key {
            Key::ArrowLeft => Ok(MoveTiles::Left),
            Key::ArrowRight => Ok(MoveTiles::Right),
            Key::ArrowUp => Ok(MoveTiles::Up),
            Key::ArrowDown => Ok(MoveTiles::Down),
            Key::Other => Err(InputError::NotAnArrowKey),
        }
    }
}

fn contains_key(keys: &Vec<Key>, k: Key) -> (r: bool)
    ensures
        r == keys@.contains(k),
{
    let mut i: usize = 0;
    while i < keys.len()
        invariant
            i <= keys.len(),
            forall|j: int| 0 <= j < i ==> keys@[j] != k,
        decreases keys.len() - i,
    {
        if keys[i] == k {
            assert(keys@[i as int] == k);
            return true;
        }
        i = i + 1;
    }
    false
}

/// The one move honoured among the keys pressed in a turn.
pub fn command_for(keys: &Vec<Key>) -> (r: Option<MoveTiles>)
    ensures
        r == command_of(keys@),
{
    if contains_key(keys, Key::ArrowLeft) {
        Some(MoveTiles::Left)
    } else if contains_key(keys, Key::ArrowRight) {
        Some(MoveTiles::Right)
    } else if contains_key(keys, Key::ArrowUp) {
        Some(MoveTiles::Up)
    } else if contains_key(keys, Key::ArrowDown) {
        Some(MoveTiles::Down)
    } else {
        None
    }
}

/// Whether the tiles form a well-formed tile set on `grid`.
pub fn check_tiles(grid: &Grid, tiles: &Vec<Tile>) -> (r: bool)
    ensures
        r == tiles_wf(grid.size as int, tiles@),
{
    let n = tiles.len();
    let mut i: usize = 0;
    while i < n
        invariant
            n == tiles.len(),
            i <= n,
            forall|a: int| 0 <= a < i ==> in_bounds(grid.size as int, #[trigger] tiles@[a].pos),
            forall|a: int| 0 <= a < i ==> valid_value(#[trigger] tiles@[a].value as int),
            forall|a: int, b: int|
                0 <= a < i && 0 <= b < n && a != b ==> #[trigger] tiles@[a].pos
                    != #[trigger] tiles@[b].pos,
        decreases n - i,
    {
        let t = tiles[i];
        if !grid.is_in_bounds(t.pos.x, t.pos.y) || !is_valid_value(t.value) {
            return false;
        }
        let mut j: usize = 0;
        while j < n
            invariant
                n == tiles.len(),
                i < n,
                t == tiles@[i as int],
                j <= n,
                forall|b: int| 0 <= b < j && b != i ==> tiles@[b].pos != t.pos,
            decreases n - j,
        {
            if j != i && tiles[j].pos == t.pos {
                assert(tiles@[j as int].pos == tiles@[i as int].pos);
                return false;
            }
            j = j + 1;
        }
        i = i + 1;
    }
    true
}

/// Whether `v` is a valid tile value.
pub fn is_valid_value(v: u32) -> (r: bool)
    ensures
        r == valid_value(v as int),
{
    let mut w: u32 = v;
    if w < 2 || w > MAX_VALUE {
        return false;
    }
    while w > 1
        invariant
            1 <= w <= v,
            crate::grid::is_pow2(v as int) == crate::grid::is_pow2(w as int),
        decreases w,
    {
        if w % 2 != 0 {
            return false;
        }
        w = w / 2;
    }
    true
}

fn all_mergeable(tiles: &Vec<Tile>) -> (r: bool)
    ensures
        r == mergeable(tiles@),
{
    let mut i: usize = 0;
    while i < tiles.len()
        invariant
            i <= tiles.len(),
            forall|j: int| 0 <= j < i ==> #[trigger] tiles@[j].value <= MAX_VALUE / 2,
        decreases tiles.len() - i,
    {
        if tiles[i].value > MAX_VALUE / 2 {
            return false;
        }
        i = i + 1;
    }
    true
}

/// `after` is `before` after move `dir` was played on it: the move is
/// resolved, `changed` says whether it changed the tile set, and only then
/// one tile is spawned with identity `before.next_id`.
pub open spec fn played(before: Game, after: Game, dir: MoveTiles, changed: bool) -> bool {
    let size = before.grid.size as int;
    let moved = dir.resolved(size, before.tiles@);
    &&& after.grid == before.grid
    &&& changed == (moved != dir.arranged(before.tiles@))
    &&& changed == !same_tiles(moved, before.tiles@)
    &&& !changed ==> after.tiles@ == moved
    &&& changed ==> spawn_outcome(size, moved, after.tiles@, before.next_id)
}

/// The turn controller: the grid, the current tiles, and the identity the
/// next spawned tile gets.
pub struct Game {
    pub grid: Grid,
    pub tiles: Vec<Tile>,
    pub next_id: u64,
}

impl Game {
    pub open spec fn wf(&self) -> bool {
        self.grid.wf() && tiles_wf(self.grid.size as int, self.tiles@)
    }

    /// A new game on a grid of side `size`, with the two opening tiles.
    pub fn new(size: u8) -> (r: Result<Game, ConfigError>)
        ensures
            r is Ok <==> size >= 2,
            r is Err ==> r->Err_0 == ConfigError::InvalidConfiguration,
            r is Ok ==> {
                let g = r->Ok_0;
                &&& g.wf()
                &&& g.grid.size == size
                &&& g.tiles@.len() == 2
                &&& g.tiles@[0].value == 2 && g.tiles@[1].value == 2
                &&& g.next_id == 2
            },
    {
        match Grid::create_grid(size) {
            Ok(grid) => {
                let tiles = initial_tiles(&grid);
                proof {
                    assert(tiles@[0] == crate::spawn::new_tile(0, tiles@[0].pos));
                    assert(tiles@[1] == crate::spawn::new_tile(1, tiles@[1].pos));
                }
                Ok(Game { grid, tiles, next_id: 2 })
            },
            Err(e) => Err(e),
        }
    }

    /// A game on a grid of side `size` that starts from the given tiles; the
    /// next spawned tile gets identity `next_id`.
    pub fn from_tiles(size: u8, tiles: Vec<Tile>, next_id: u64) -> (r: Result<Game, ConfigError>)
        ensures
            size < 2 <==> r == Err::<Game, ConfigError>(ConfigError::InvalidConfiguration),
            size >= 2 && !tiles_wf(size as int, tiles@) <==> r == Err::<Game, ConfigError>(
                ConfigError::InvalidTiles,
            ),
            r is Ok ==> r->Ok_0.wf() && r->Ok_0.grid.size == size && r->Ok_0.tiles@ == tiles@
                && r->Ok_0.next_id == next_id,
    {
        match Grid::create_grid(size) {
            Ok(grid) => {
                if check_tiles(&grid, &tiles) {
                    Ok(Game { grid, tiles, next_id })
                } else {
                    Err(ConfigError::InvalidTiles)
                }
            },
            Err(e) => Err(e),
        }
    }

    /// Plays one move: resolves it and, only when the tile set changed,
    /// spawns one tile on a random empty cell. Returns whether the tile set
    /// changed. A board holding a tile that could no longer be doubled
    /// (above `MAX_VALUE / 2`) takes no further move.
    pub fn play(&mut self, dir: MoveTiles) -> (changed: bool)
        requires
            old(self).wf(),
        ensures
            final(self).wf(),
            final(self).grid == old(self).grid,
            !mergeable(old(self).tiles@) ==> !changed && final(self).tiles@ == old(self).tiles@
                && final(self).next_id == old(self).next_id,
            mergeable(old(self).tiles@) ==> played(*old(self), *final(self), dir, changed),
    {
        if !all_mergeable(&self.tiles) {
            return false;
        }
        let (moved, changed) = resolve_move(&self.grid, &self.tiles, dir);
        self.tiles = moved;
        if changed {
            let ghost before = self.tiles@;
            let spawned = spawn_tile(&self.grid, &mut self.tiles, self.next_id);
            match spawned {
                Some(pos) => {
                    proof {
                        lemma_spawn_correct(self.grid.size as int, before, pos, self.next_id);
                    }
                    self.next_id = if self.next_id < u64::MAX {
                        self.next_id + 1
                    } else {
                        0
                    };
                },
                None => {},
            }
        }
        changed
    }

    /// One turn: the keys pressed select at most one move (Left before Right
    /// before Up before Down), which is played. Returns `None`, with the game
    /// unchanged, when no arrow key was pressed; else whether the tile set
    /// changed.
    pub fn turn(&mut self, keys: &Vec<Key>) -> (r: Option<bool>)
        requires
            old(self).wf(),
        ensures
            final(self).wf(),
            command_of(keys@) is None ==> r is None && *final(self) == *old(self),
            command_of(keys@) is Some ==> r is Some,
            command_of(keys@) is Some && mergeable(old(self).tiles@) ==> played(
                *old(self),
                *final(self),
                command_of(keys@)->Some_0,
                r->Some_0,
            ),
            command_of(keys@) is Some && !mergeable(old(self).tiles@) ==> r == Some(false)
                && final(self).tiles@ == old(self).tiles@ && final(self).grid == old(self).grid
                && final(self).next_id == old(self).next_id,
    {
        match command_for(keys) {
            Some(dir) => Some(self.play(dir)),
            None => None,
        }
    }

    /// The current tiles, as a renderer reads them.
    pub fn tiles(&self) -> (r: &Vec<Tile>)
        ensures
            r@ == self.tiles@,
    {
        &self.tiles
    }
}

} // verus!
