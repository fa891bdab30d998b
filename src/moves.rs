use vstd::prelude::*;
use std::cmp::Ordering;
use itertools::Itertools;
use crate::grid::{
    Grid, MAX_VALUE, Position, Tile, in_bounds, lemma_pow2_double, tiles_wf, value_sum,
};
use crate::perm::{
    lemma_perm_contains, lemma_perm_unique_positions, lemma_perm_value_sum, lemma_value_sum_concat,
    same_tiles,
};

verus! {

broadcast use vstd::seq_lib::group_to_multiset_ensures;

/// A directional move command.
#[derive(Clone, Copy, Debug, PartialEq, Eq, Structural)]
pub enum MoveTiles {
    Left,
    Right,
    Up,
    Down,
}

fn cmp_u8(a: u8, b: u8) -> (r: Ordering)
    ensures
        (r == Ordering::Less) == (a < b),
        (r == Ordering::Equal) == (a == b),
        (r == Ordering::Greater) == (a > b),
{
    if a < b {
        Ordering::Less
    } else if a == b {
        Ordering::Equal
    } else {
        Ordering::Greater
    }
}

impl MoveTiles {
    /// Rank of the lane of `p` in traversal order (lanes are rows for Left
    /// and Right, columns for Up and Down).
    pub open spec fn lane_rank(self, p: Position) -> int {
        match self {
            MoveTiles::Left => p.y as int,
            MoveTiles::Right => 255 - p.y,
            MoveTiles::Up => 255 - p.x,
            MoveTiles::Down => p.x as int,
        }
    }

    /// Rank of `p` within its lane in traversal order: nearest the
    /// destination edge first.
    pub open spec fn dist_rank(self, p: Position) -> int {
        match self {
            MoveTiles::Left => p.x as int,
            MoveTiles::Right => 255 - p.x,
            MoveTiles::Up => 255 - p.y,
            MoveTiles::Down => p.y as int,
        }
    }

    /// Traversal key: lane first, then distance to the destination edge.
    pub open spec fn key(self, p: Position) -> int {
        self.lane_rank(p) * 256 + self.dist_rank(p)
    }

    /// The coordinate that a move leaves unchanged.
    pub open spec fn lane(self, p: Position) -> int {
        match self {
            MoveTiles::Left | MoveTiles::Right => p.y as int,
            MoveTiles::Up | MoveTiles::Down => p.x as int,
        }
    }

    /// Number of cells between `p` and the edge the move points to.
    pub open spec fn distance(self, size: int, p: Position) -> int {
        match self {
            MoveTiles::Left => p.x as int,
            MoveTiles::Right => size - 1 - p.x,
            MoveTiles::Up => size - 1 - p.y,
            MoveTiles::Down => p.y as int,
        }
    }

    /// `p` moved along its lane to compacted column `col`.
    pub open spec fn placed(self, size: int, p: Position, col: int) -> Position {
        match self {
            MoveTiles::Left => Position { x: col as u8, ..p },
            MoveTiles::Right => Position { x: (size - 1 - col) as u8, ..p },
            MoveTiles::Up => Position { y: (size - 1 - col) as u8, ..p },
            MoveTiles::Down => Position { y: col as u8, ..p },
        }
    }

    /// The tiles of `s` come in traversal order.
    pub open spec fn sorted(self, s: Seq<Tile>) -> bool {
        forall|i: int, j: int|
            0 <= i < j < s.len() ==> self.key(#[trigger] s[i].pos) <= self.key(#[trigger] s[j].pos)
    }

    /// The tiles of `s` come in traversal order, no two on one cell.
    pub open spec fn strictly_sorted(self, s: Seq<Tile>) -> bool {
        forall|i: int, j: int|
            0 <= i < j < s.len() ==> self.key(#[trigger] s[i].pos) < self.key(#[trigger] s[j].pos)
    }

    /// Comparator of the traversal order.
    pub fn sort(&self, a: &Position, b: &Position) -> (r: Ordering)
        ensures
            (r == Ordering::Less) == (self.key(*a) < self.key(*b)),
            (r == Ordering::Equal) == (self.key(*a) == self.key(*b)),
            (r == Ordering::Greater) == (self.key(*a) > self.key(*b)),
    {
        match self {
            MoveTiles::Left => match cmp_u8(a.y, b.y) {
                Ordering::Equal => cmp_u8(a.x, b.x),
                ordering => ordering,
            },
            MoveTiles::Right => match cmp_u8(b.y, a.y) {
                Ordering::Equal => cmp_u8(b.x, a.x),
                ordering => ordering,
            },
            MoveTiles::Up => match cmp_u8(b.x, a.x) {
                Ordering::Equal => cmp_u8(b.y, a.y),
                ordering => ordering,
            },
            MoveTiles::Down => match cmp_u8(a.x, b.x) {
                Ordering::Equal => cmp_u8(a.y, b.y),
                ordering => ordering,
            },
        }
    }

    /// Moves `position` along its lane to compacted column `index`.
    pub fn set_column(&self, grid: u8, position: &mut Position, index: u8)
        requires
            index < grid,
        ensures
            *final(position) == self.placed(grid as int, *old(position), index as int),
    {
        match self {
            MoveTiles::Left => {
                position.x = index;
            },
            MoveTiles::Right => {
                position.x = grid - 1 - index;
            },
            MoveTiles::Up => {
                position.y = grid - 1 - index;
            },
            MoveTiles::Down => {
                position.y = index;
            },
        }
    }

    /// The lane coordinate of `position`.
    pub fn get_row(&self, position: &Position) -> (r: u8)
        ensures
            r == self.lane(*position),
    {
        match self {
            MoveTiles::Left | MoveTiles::Right => position.y,
            MoveTiles::Up | MoveTiles::Down => position.x,
        }
    }
}

/// Relies on itertools' `Itertools::sorted_by`, which collects the items
/// into a `Vec` and sorts it with the given comparator: the result holds the
/// same tiles, in the order of `MoveTiles::sort`.
#[verifier::external_body]
fn sorted_tiles(tiles: &Vec<Tile>, dir: MoveTiles) -> (r: Vec<Tile>)
    ensures
        same_tiles(r@, tiles@),
        dir.sorted(r@),
{
    tiles.iter().copied().sorted_by(|a, b| dir.sort(&a.pos, &b.pos)).collect()
}

/// The key tells cells apart.
pub proof fn lemma_key_injective(dir: MoveTiles, a: Position, b: Position)
    ensures
        dir.key(a) == dir.key(b) <==> a == b,
{
}

/// Within one lane the key orders by distance to the edge; across lanes by
/// lane.
pub proof fn lemma_key_order(dir: MoveTiles, size: int, a: Position, b: Position)
    ensures
        dir.lane(a) == dir.lane(b) ==> (dir.key(a) < dir.key(b) <==> dir.distance(size, a)
            < dir.distance(size, b)),
        dir.lane(a) != dir.lane(b) ==> (dir.key(a) < dir.key(b) <==> dir.lane_rank(a)
            < dir.lane_rank(b)),
        dir.lane(a) == dir.lane(b) <==> dir.lane_rank(a) == dir.lane_rank(b),
{
}

/// Placing a cell on column `col` keeps its lane and puts it `col` cells
/// from the edge.
pub proof fn lemma_placed(dir: MoveTiles, size: int, p: Position, col: int)
    requires
        2 <= size <= 255,
        0 <= col < size,
        in_bounds(size, p),
    ensures
        in_bounds(size, dir.placed(size, p, col)),
        dir.lane(dir.placed(size, p, col)) == dir.lane(p),
        dir.lane_rank(dir.placed(size, p, col)) == dir.lane_rank(p),
        dir.distance(size, dir.placed(size, p, col)) == col,
{
}

/// Two strictly sorted sequences with the same tiles are equal: a tile set
/// on distinct cells has one traversal order.
pub proof fn lemma_sorted_unique(dir: MoveTiles, s1: Seq<Tile>, s2: Seq<Tile>)
    requires
        dir.strictly_sorted(s1),
        dir.strictly_sorted(s2),
        same_tiles(s1, s2),
    ensures
        s1 == s2,
    decreases s1.len(),
{
    if s1.len() == 0 {
        assert(s2.to_multiset().len() == 0);
        assert(s2.len() == 0);
        assert(s1 =~= s2);
    } else {
        assert(s1.to_multiset().len() == s2.to_multiset().len());
        assert(s1.contains(s1[0]));
        assert(s1.to_multiset().count(s1[0]) > 0);
        assert(s2.contains(s2[0]));
        assert(s2.to_multiset().count(s2[0]) > 0);
        let j = choose|j: int| 0 <= j < s2.len() && s2[j] == s1[0];
        let i = choose|i: int| 0 <= i < s1.len() && s1[i] == s2[0];
        if j > 0 {
            assert(dir.key(s2[0].pos) < dir.key(s2[j].pos));
            if i > 0 {
                assert(dir.key(s1[0].pos) < dir.key(s1[i].pos));
            }
        }
        assert(s1[0] == s2[0]);
        let t1 = s1.remove(0);
        let t2 = s2.remove(0);
        assert(dir.strictly_sorted(t1)) by {
            assert forall|a: int, b: int| 0 <= a < b < t1.len() implies dir.key(#[trigger] t1[a].pos)
                < dir.key(#[trigger] t1[b].pos) by {
                assert(t1[a] == s1[a + 1] && t1[b] == s1[b + 1]);
            }
        }
        assert(dir.strictly_sorted(t2)) by {
            assert forall|a: int, b: int| 0 <= a < b < t2.len() implies dir.key(#[trigger] t2[a].pos)
                < dir.key(#[trigger] t2[b].pos) by {
                assert(t2[a] == s2[a + 1] && t2[b] == s2[b + 1]);
            }
        }
        lemma_sorted_unique(dir, t1, t2);
        assert(s1 =~= seq![s1[0]] + t1);
        assert(s2 =~= seq![s2[0]] + t2);
    }
}

/// Every tile can be doubled without passing `MAX_VALUE`.
pub open spec fn mergeable(s: Seq<Tile>) -> bool {
    forall|i: int| 0 <= i < s.len() ==> #[trigger] s[i].value <= MAX_VALUE / 2
}

impl MoveTiles {
    /// The first two tiles of `s` share a lane and a value, so they merge.
    pub open spec fn merges_head(self, s: Seq<Tile>) -> bool {
        s.len() >= 2 && self.lane(s[0].pos) == self.lane(s[1].pos) && s[0].value == s[1].value
    }

    /// How many tiles of `s` the first resolved tile takes up.
    pub open spec fn head_len(self, s: Seq<Tile>) -> int {
        if self.merges_head(s) {
            2
        } else {
            1
        }
    }

    /// The column after the first resolved tile: one further along in the
    /// same lane, 0 in a new lane.
    pub open spec fn next_column(self, s: Seq<Tile>, col: int) -> int {
        let k = self.head_len(s);
        if s.len() > k && self.lane(s[k].pos) == self.lane(s[0].pos) {
            col + 1
        } else {
            0
        }
    }

    /// The first resolved tile: the first tile of `s`, doubled if it merges,
    /// placed on column `col`.
    pub open spec fn head_tile(self, size: int, s: Seq<Tile>, col: int) -> Tile {
        Tile {
            id: s[0].id,
            value: if self.merges_head(s) {
                (2 * s[0].value) as u32
            } else {
                s[0].value
            },
            pos: self.placed(size, s[0].pos, col),
        }
    }

    /// One sweep over tiles in traversal order, starting on column `col`:
    /// each tile is placed on the next free column of its lane, and a tile
    /// that meets an equal tile in its lane absorbs it; the merged tile is
    /// not compared again.
    pub open spec fn sweep(self, size: int, s: Seq<Tile>, col: int) -> Seq<Tile>
        decreases s.len(),
    {
        if s.len() == 0 {
            Seq::empty()
        } else {
            seq![self.head_tile(size, s, col)] + self.sweep(
                size,
                s.skip(self.head_len(s)),
                self.next_column(s, col),
            )
        }
    }

    /// The tiles of `t` in traversal order.
    pub open spec fn arranged(self, t: Seq<Tile>) -> Seq<Tile> {
        choose|s: Seq<Tile>| same_tiles(s, t) && self.sorted(s)
    }

    /// The tile set after this move on a grid of side `size`.
    pub open spec fn resolved(self, size: int, t: Seq<Tile>) -> Seq<Tile> {
        self.sweep(size, self.arranged(t), 0)
    }
}

/// A sorted rearrangement of a well-formed tile set is strictly sorted,
/// well-formed, and is the traversal order of the set.
pub proof fn lemma_arranged(dir: MoveTiles, size: int, t: Seq<Tile>, v: Seq<Tile>)
    requires
        same_tiles(v, t),
        dir.sorted(v),
        tiles_wf(size, t),
    ensures
        v == dir.arranged(t),
        dir.strictly_sorted(v),
        tiles_wf(size, v),
        mergeable(t) ==> mergeable(v),
{
    lemma_sorted_perm_strict(dir, size, v, t);
    let s = dir.arranged(t);
    lemma_sorted_perm_strict(dir, size, s, t);
    lemma_sorted_unique(dir, s, v);
}

proof fn lemma_sorted_perm_strict(dir: MoveTiles, size: int, v: Seq<Tile>, t: Seq<Tile>)
    requires
        same_tiles(v, t),
        dir.sorted(v),
        tiles_wf(size, t),
    ensures
        dir.strictly_sorted(v),
        tiles_wf(size, v),
        mergeable(t) ==> mergeable(v),
{
    lemma_perm_unique_positions(v, t);
    assert forall|i: int| 0 <= i < v.len() implies exists|j: int|
        0 <= j < t.len() && t[j] == #[trigger] v[i] by {
        lemma_perm_contains(v, t, i);
    }
    assert forall|i: int| 0 <= i < v.len() implies in_bounds(size, #[trigger] v[i].pos) by {
        let j = choose|j: int| 0 <= j < t.len() && t[j] == v[i];
    }
    assert forall|i: int| 0 <= i < v.len() implies crate::grid::valid_value(
        #[trigger] v[i].value as int) by {
        let j = choose|j: int| 0 <= j < t.len() && t[j] == v[i];
    }
    if mergeable(t) {
        assert forall|i: int| 0 <= i < v.len() implies #[trigger] v[i].value <= MAX_VALUE / 2 by {
            let j = choose|j: int| 0 <= j < t.len() && t[j] == v[i];
        }
    }
    assert forall|i: int, j: int| 0 <= i < j < v.len() implies dir.key(#[trigger] v[i].pos)
        < dir.key(#[trigger] v[j].pos) by {
        lemma_key_injective(dir, v[i].pos, v[j].pos);
    }
}

/// What one sweep yields from tiles in strict traversal order, all in
/// bounds: tiles in strict traversal order, in bounds, with valid values;
/// the first keeps its lane and lands on column `col`.
pub proof fn lemma_sweep_wf(dir: MoveTiles, size: int, s: Seq<Tile>, col: int)
    requires
        2 <= size <= 255,
        dir.strictly_sorted(s),
        tiles_wf(size, s),
        mergeable(s),
        0 <= col,
        s.len() > 0 ==> col <= dir.distance(size, s[0].pos),
    ensures
        dir.strictly_sorted(dir.sweep(size, s, col)),
        tiles_wf(size, dir.sweep(size, s, col)),
        s.len() > 0 ==> dir.lane(dir.sweep(size, s, col)[0].pos) == dir.lane(s[0].pos),
        s.len() > 0 ==> dir.distance(size, dir.sweep(size, s, col)[0].pos) == col,
    decreases s.len(),
{
    let out = dir.sweep(size, s, col);
    if s.len() > 0 {
        let k = dir.head_len(s);
        let rest = s.skip(k);
        let c2 = dir.next_column(s, col);
        assert forall|a: int| 0 <= a < rest.len() implies #[trigger] rest[a] == s[a + k] by {}
        assert(dir.strictly_sorted(rest));
        assert(tiles_wf(size, rest)) by {
            assert forall|a: int, b: int|
                0 <= a < rest.len() && 0 <= b < rest.len() && a != b implies #[trigger] rest[a].pos
                != #[trigger] rest[b].pos by {
                assert(rest[a] == s[a + k] && rest[b] == s[b + k]);
            }
        }
        if rest.len() > 0 && dir.lane(s[k].pos) == dir.lane(s[0].pos) {
            lemma_key_order(dir, size, s[0].pos, s[k].pos);
            if k == 2 {
                lemma_key_order(dir, size, s[0].pos, s[1].pos);
                lemma_key_order(dir, size, s[1].pos, s[2].pos);
            }
        }
        lemma_sweep_wf(dir, size, rest, c2);
        let out2 = dir.sweep(size, rest, c2);
        let h = dir.head_tile(size, s, col);
        assert(out == seq![h] + out2);
        lemma_placed(dir, size, s[0].pos, col);
        if dir.merges_head(s) {
            lemma_pow2_double(s[0].value as int);
        }
        assert forall|a: int| 0 <= a < out2.len() implies dir.key(h.pos) < dir.key(
            #[trigger] out2[a].pos) by {
            lemma_key_order(dir, size, s[0].pos, s[k].pos);
            lemma_key_order(dir, size, h.pos, out2[0].pos);
            if a > 0 {
                assert(dir.key(out2[0].pos) < dir.key(out2[a].pos));
            }
        }
        assert forall|a: int, b: int| 0 <= a < b < out.len() implies dir.key(
            #[trigger] out[a].pos) < dir.key(#[trigger] out[b].pos) by {
            if a == 0 {
                assert(out[b] == out2[b - 1]);
            } else {
                assert(out[a] == out2[a - 1] && out[b] == out2[b - 1]);
            }
        }
        assert forall|a: int| 0 <= a < out.len() implies in_bounds(size, #[trigger] out[a].pos)
            && crate::grid::valid_value(out[a].value as int) by {
            if a > 0 {
                assert(out[a] == out2[a - 1]);
            }
        }
        assert forall|a: int, b: int|
            0 <= a < out.len() && 0 <= b < out.len() && a != b implies #[trigger] out[a].pos
            != #[trigger] out[b].pos by {
            if a < b {
                assert(dir.key(out[a].pos) < dir.key(out[b].pos));
            } else {
                assert(dir.key(out[b].pos) < dir.key(out[a].pos));
            }
        }
    }
}

/// Bounds and uniqueness: after any move every tile is inside the grid with
/// a valid value, and no two tiles share a cell.
pub proof fn lemma_resolved_wf(dir: MoveTiles, size: int, t: Seq<Tile>)
    requires
        2 <= size <= 255,
        tiles_wf(size, t),
        mergeable(t),
    ensures
        tiles_wf(size, dir.resolved(size, t)),
{
    let a = dir.arranged(t);
    lemma_arranged_exists(dir, t);
    lemma_arranged(dir, size, t, a);
    lemma_sweep_wf(dir, size, a, 0);
}

/// `x` inserted into `s` before the first tile that comes after it.
spec fn insert_sorted(dir: MoveTiles, x: Tile, s: Seq<Tile>) -> Seq<Tile>
    decreases s.len(),
{
    if s.len() == 0 {
        seq![x]
    } else if dir.key(x.pos) <= dir.key(s[0].pos) {
        seq![x] + s
    } else {
        seq![s[0]] + insert_sorted(dir, x, s.drop_first())
    }
}

/// Insertion sort of `t` in traversal order.
spec fn sort_spec(dir: MoveTiles, t: Seq<Tile>) -> Seq<Tile>
    decreases t.len(),
{
    if t.len() == 0 {
        Seq::empty()
    } else {
        insert_sorted(dir, t.last(), sort_spec(dir, t.drop_last()))
    }
}

proof fn lemma_insert_sorted(dir: MoveTiles, x: Tile, s: Seq<Tile>)
    requires
        dir.sorted(s),
    ensures
        dir.sorted(insert_sorted(dir, x, s)),
        insert_sorted(dir, x, s).to_multiset() == s.to_multiset().insert(x),
        forall|i: int|
            0 <= i < insert_sorted(dir, x, s).len() ==> #[trigger] insert_sorted(dir, x, s)[i]
                == x || s.contains(insert_sorted(dir, x, s)[i]),
    decreases s.len(),
{
    let r = insert_sorted(dir, x, s);
    if s.len() == 0 {
        assert(seq![x] =~= Seq::<Tile>::empty().push(x));
    } else if dir.key(x.pos) <= dir.key(s[0].pos) {
        assert(r =~= s.insert(0, x));
        assert forall|i: int, j: int| 0 <= i < j < r.len() implies dir.key(#[trigger] r[i].pos)
            <= dir.key(#[trigger] r[j].pos) by {
            if i > 0 {
                assert(r[i] == s[i - 1] && r[j] == s[j - 1]);
            } else {
                assert(r[j] == s[j - 1]);
            }
        }
        assert forall|i: int| 0 <= i < r.len() implies #[trigger] r[i] == x || s.contains(r[i]) by {
            if i > 0 {
                assert(r[i] == s[i - 1]);
            }
        }
    } else {
        let s1 = s.drop_first();
        let r1 = insert_sorted(dir, x, s1);
        assert(dir.sorted(s1)) by {
            assert forall|i: int, j: int| 0 <= i < j < s1.len() implies dir.key(#[trigger] s1[i].pos)
                <= dir.key(#[trigger] s1[j].pos) by {
                assert(s1[i] == s[i + 1] && s1[j] == s[j + 1]);
            }
        }
        lemma_insert_sorted(dir, x, s1);
        assert(r =~= r1.insert(0, s[0]));
        assert(s =~= s1.insert(0, s[0]));
        assert(r.to_multiset() =~= s.to_multiset().insert(x));
        assert forall|i: int| 0 <= i < r1.len() implies dir.key(s[0].pos) <= dir.key(
            #[trigger] r1[i].pos) by {
            if r1[i] != x {
                let j = choose|j: int| 0 <= j < s1.len() && s1[j] == r1[i];
                assert(s1[j] == s[j + 1]);
            }
        }
        assert forall|i: int, j: int| 0 <= i < j < r.len() implies dir.key(#[trigger] r[i].pos)
            <= dir.key(#[trigger] r[j].pos) by {
            if i > 0 {
                assert(r[i] == r1[i - 1] && r[j] == r1[j - 1]);
            } else {
                assert(r[j] == r1[j - 1]);
            }
        }
        assert forall|i: int| 0 <= i < r.len() implies #[trigger] r[i] == x || s.contains(r[i]) by {
            if i > 0 {
                assert(r[i] == r1[i - 1]);
                if r1[i - 1] != x {
                    let j = choose|j: int| 0 <= j < s1.len() && s1[j] == r1[i - 1];
                    assert(s1[j] == s[j + 1]);
                }
            } else {
                assert(s[0] == r[0]);
            }
        }
    }
}

proof fn lemma_sort_spec(dir: MoveTiles, t: Seq<Tile>)
    ensures
        dir.sorted(sort_spec(dir, t)),
        same_tiles(sort_spec(dir, t), t),
    decreases t.len(),
{
    if t.len() > 0 {
        lemma_sort_spec(dir, t.drop_last());
        lemma_insert_sorted(dir, t.last(), sort_spec(dir, t.drop_last()));
        assert(t =~= t.drop_last().push(t.last()));
        vstd::seq_lib::to_multiset_build(t.drop_last(), t.last());
    } else {
        assert(t =~= Seq::empty());
    }
}

/// Every tile set has an arrangement in traversal order.
proof fn lemma_arranged_exists(dir: MoveTiles, t: Seq<Tile>)
    ensures
        same_tiles(dir.arranged(t), t),
        dir.sorted(dir.arranged(t)),
{
    lemma_sort_spec(dir, t);
}

fn same_seq(a: &Vec<Tile>, b: &Vec<Tile>) -> (r: bool)
    ensures
        r == (a@ == b@),
{
    if a.len() != b.len() {
        return false;
    }
    let mut i: usize = 0;
    while i < a.len()
        invariant
            a.len() == b.len(),
            i <= a.len(),
            forall|j: int| 0 <= j < i ==> a@[j] == b@[j],
        decreases a.len() - i,
    {
        if a[i] != b[i] {
            return false;
        }
        i = i + 1;
    }
    assert(a@ =~= b@);
    true
}

/// Resolves one move: slides every tile toward the edge `dir` points to,
/// merges equal neighbours of a lane once, and reports whether the tile set
/// changed (a tile moved, merged or was absorbed).
pub fn resolve_move(grid: &Grid, tiles: &Vec<Tile>, dir: MoveTiles) -> (r: (Vec<Tile>, bool))
    requires
        grid.wf(),
        tiles_wf(grid.size as int, tiles@),
        mergeable(tiles@),
    ensures
        r.0@ == dir.resolved(grid.size as int, tiles@),
        r.1 == (r.0@ != dir.arranged(tiles@)),
        r.1 == !same_tiles(r.0@, tiles@),
        tiles_wf(grid.size as int, r.0@),
{
    let ghost size = grid.size as int;
    let v = sorted_tiles(tiles, dir);
    proof {
        lemma_arranged(dir, size, tiles@, v@);
        lemma_sweep_wf(dir, size, v@, 0);
        assert(v@.skip(0) =~= v@);
    }
    let n = v.len();
    let mut out: Vec<Tile> = Vec::new();
    let mut i: usize = 0;
    let mut col: u8 = 0;
    while i < n
        invariant
            n == v.len(),
            i <= n,
            size == grid.size,
            grid.wf(),
            dir.strictly_sorted(v@),
            tiles_wf(size, v@),
            mergeable(v@),
            i < n ==> col as int <= dir.distance(size, v@[i as int].pos),
            dir.sweep(size, v@, 0) == out@ + dir.sweep(size, v@.skip(i as int), col as int),
        decreases n - i,
    {
        let ghost s = v@.skip(i as int);
        let ghost c = col as int;
        let t = v[i];
        let mut pos = t.pos;
        dir.set_column(grid.size, &mut pos, col);
        let merge = i + 1 < n && dir.get_row(&v[i + 1].pos) == dir.get_row(&t.pos) && v[i
            + 1].value == t.value;
        let value = if merge {
            t.value * 2
        } else {
            t.value
        };
        out.push(Tile { id: t.id, value, pos });
        let step: usize = if merge {
            2
        } else {
            1
        };
        let next = i + step;
        proof {
            assert(s[0] == v@[i as int]);
            if i + 1 < n {
                assert(s[1] == v@[i + 1]);
            }
            assert(dir.merges_head(s) == merge);
            assert(s.skip(step as int) =~= v@.skip(next as int));
            if next < n {
                assert(s[step as int] == v@[next as int]);
                lemma_key_order(dir, size, v@[i as int].pos, v@[next as int].pos);
                if merge {
                    lemma_key_order(dir, size, v@[i as int].pos, v@[i + 1].pos);
                    lemma_key_order(dir, size, v@[i + 1].pos, v@[i + 2].pos);
                }
            }
            assert(dir.head_tile(size, s, c) == Tile { id: t.id, value, pos });
        }
        if next < n && dir.get_row(&v[next].pos) == dir.get_row(&t.pos) {
            col = col + 1;
        } else {
            col = 0;
        }
        proof {
            assert(dir.next_column(s, c) == col as int);
            assert(out@ + dir.sweep(size, v@.skip(next as int), col as int) =~= out@.drop_last()
                + dir.sweep(size, s, c));
        }
        i = next;
    }
    proof {
        assert(v@.skip(n as int) =~= Seq::<Tile>::empty());
        assert(out@ =~= dir.sweep(size, v@, 0));
    }
    let changed = !same_seq(&out, &v);
    proof {
        lemma_changed_iff_set_differs(dir, size, tiles@);
    }
    (out, changed)
}

impl MoveTiles {
    /// The `m`-th tile of `out` is the tile at `source(s, m)` of `s`, moved,
    /// or that tile and the next one of `s`, of the same lane and value,
    /// merged into one of twice the value; the next tile of `out` starts
    /// right after them.
    pub open spec fn built_from(self, s: Seq<Tile>, out: Seq<Tile>, m: int) -> bool {
        let g = self.source(s, m);
        let g2 = self.source(s, m + 1);
        let o = out[m];
        &&& 0 <= g < g2 <= g + 2
        &&& g2 <= s.len()
        &&& o.id == s[g].id
        &&& g2 == g + 1 ==> o.value == s[g].value
        &&& g2 == g + 2 ==> self.lane(s[g].pos) == self.lane(s[g + 1].pos) && s[g].value == s[g
            + 1].value && o.value == 2 * s[g].value
    }

    /// Index in `s` of the first tile that the `m`-th resolved tile of a
    /// sweep over `s` is built from.
    pub open spec fn source(self, s: Seq<Tile>, m: int) -> int
        decreases s.len(),
    {
        if m <= 0 || s.len() == 0 {
            0
        } else {
            self.head_len(s) + self.source(s.skip(self.head_len(s)), m - 1)
        }
    }
}

proof fn lemma_sweep_sum(dir: MoveTiles, size: int, s: Seq<Tile>, col: int)
    requires
        mergeable(s),
    ensures
        value_sum(dir.sweep(size, s, col)) == value_sum(s),
    decreases s.len(),
{
    if s.len() > 0 {
        let k = dir.head_len(s);
        let rest = s.skip(k);
        assert forall|a: int| 0 <= a < rest.len() implies #[trigger] rest[a] == s[a + k] by {}
        lemma_sweep_sum(dir, size, rest, dir.next_column(s, col));
        let h = dir.head_tile(size, s, col);
        lemma_value_sum_concat(seq![h], dir.sweep(size, rest, dir.next_column(s, col)));
        assert(s =~= s.take(k) + rest);
        lemma_value_sum_concat(s.take(k), rest);
        assert(seq![h].drop_last() =~= Seq::<Tile>::empty());
        assert(value_sum(Seq::<Tile>::empty()) == 0);
        assert(value_sum(seq![h]) == h.value);
        assert(s.take(1).drop_last() =~= Seq::<Tile>::empty());
        assert(value_sum(s.take(1)) == s[0].value);
        if k == 2 {
            assert(s.take(2).drop_last() =~= s.take(1));
            assert(value_sum(s.take(2)) == s[0].value + s[1].value);
        }
    }
}

/// Conservation: a move keeps the sum of the tile values, since merging
/// two tiles of value v makes one of value 2v.
pub proof fn lemma_resolve_conserves_sum(dir: MoveTiles, size: int, t: Seq<Tile>)
    requires
        2 <= size <= 255,
        tiles_wf(size, t),
        mergeable(t),
    ensures
        value_sum(dir.resolved(size, t)) == value_sum(t),
{
    let a = dir.arranged(t);
    lemma_arranged_exists(dir, t);
    lemma_arranged(dir, size, t, a);
    lemma_perm_value_sum(a, t);
    lemma_sweep_sum(dir, size, a, 0);
}

proof fn lemma_sweep_sources(dir: MoveTiles, size: int, s: Seq<Tile>, col: int)
    requires
        mergeable(s),
    ensures
        dir.source(s, dir.sweep(size, s, col).len() as int) == s.len(),
        forall|m: int|
            0 <= m < dir.sweep(size, s, col).len() ==> #[trigger] dir.built_from(
                s,
                dir.sweep(size, s, col),
                m,
            ),
    decreases s.len(),
{
    let out = dir.sweep(size, s, col);
    if s.len() == 0 {
    } else {
        let k = dir.head_len(s);
        let rest = s.skip(k);
        let c2 = dir.next_column(s, col);
        assert forall|a: int| 0 <= a < rest.len() implies #[trigger] rest[a] == s[a + k] by {}
        lemma_sweep_sources(dir, size, rest, c2);
        let out2 = dir.sweep(size, rest, c2);
        assert(out == seq![dir.head_tile(size, s, col)] + out2);
        assert(dir.source(s, 1) == k + dir.source(rest, 0));
        assert forall|m: int| 0 <= m < out.len() implies #[trigger] dir.built_from(s, out, m) by {
            if m > 0 {
                assert(out[m] == out2[m - 1]);
                assert(dir.built_from(rest, out2, m - 1));
                assert(dir.source(s, m) == k + dir.source(rest, m - 1));
                assert(dir.source(s, m + 1) == k + dir.source(rest, m));
                let g1 = dir.source(rest, m - 1);
                assert(rest[g1] == s[g1 + k]);
                if dir.source(rest, m) == g1 + 2 {
                    assert(rest[g1 + 1] == s[g1 + 1 + k]);
                }
            }
        }
    }
}

/// No chain merges: each tile after a move comes from one tile, or from two
/// neighbours of one lane with equal values, in traversal order, and each
/// tile before the move goes into exactly one tile after it. So no tile
/// that a merge made takes part in a second merge of the same move.
pub proof fn lemma_no_chain_merges(dir: MoveTiles, size: int, t: Seq<Tile>)
    requires
        2 <= size <= 255,
        tiles_wf(size, t),
        mergeable(t),
    ensures
        dir.source(dir.arranged(t), dir.resolved(size, t).len() as int) == t.len(),
        forall|m: int|
            0 <= m < dir.resolved(size, t).len() ==> #[trigger] dir.built_from(
                dir.arranged(t),
                dir.resolved(size, t),
                m,
            ),
{
    let a = dir.arranged(t);
    lemma_arranged_exists(dir, t);
    lemma_arranged(dir, size, t, a);
    assert(a.to_multiset().len() == t.to_multiset().len());
    lemma_sweep_sources(dir, size, a, 0);
}

/// A move that changes nothing changes nothing when made again.
pub proof fn lemma_noop_move_idempotent(dir: MoveTiles, size: int, t: Seq<Tile>)
    requires
        tiles_wf(size, t),
        dir.resolved(size, t) == dir.arranged(t),
    ensures
        dir.resolved(size, dir.resolved(size, t)) == dir.resolved(size, t),
{
    let a = dir.arranged(t);
    lemma_arranged_exists(dir, t);
    lemma_arranged(dir, size, t, a);
    lemma_arranged(dir, size, a, a);
}

/// A move changes the tile set exactly when its result differs from the
/// tiles in traversal order.
pub proof fn lemma_changed_iff_set_differs(dir: MoveTiles, size: int, t: Seq<Tile>)
    requires
        2 <= size <= 255,
        tiles_wf(size, t),
        mergeable(t),
    ensures
        (dir.resolved(size, t) == dir.arranged(t)) == same_tiles(dir.resolved(size, t), t),
{
    let a = dir.arranged(t);
    lemma_arranged_exists(dir, t);
    lemma_arranged(dir, size, t, a);
    lemma_sweep_wf(dir, size, a, 0);
    if same_tiles(dir.resolved(size, t), t) {
        lemma_sorted_unique(dir, dir.resolved(size, t), a);
    }
}

} // verus!
