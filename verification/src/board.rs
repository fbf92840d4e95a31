use vstd::prelude::*;

use std::collections::HashMap;

use crate::bounds::{Bounds2, IVec2};
use crate::coordinate::Coordinate;
use crate::tile_map::{
    lemma_cell_index_bounds, lemma_cell_index_injective, lemma_grid_size_fits, neighbor_of,
    neighbor_repr, TileMap,
};

verus! {

broadcast use vstd::std_specs::hash::group_hash_axioms;

/// Largest accepted edge length of one cell, in board-space units.
pub const MAX_TILE_SIZE: i64 = 0x10_0000;

/// Largest accepted magnitude for positions and viewport extents, chosen
/// so that every sum the pointer mapping forms stays far from `i64`
/// overflow.
pub const MAX_POSITION_ABS: i64 = 0x100_0000_0000;

/// Largest board extent: `0xffff * MAX_TILE_SIZE` rounded up.
pub const MAX_BOARD_EXTENT: i64 = 0x10_0000_0000;

/// The covered-tiles key that stands for cell `c`: both `u16`
/// components packed into one `u32`.
pub open spec fn spec_key(c: Coordinate) -> u32 {
    (c.y as int * 0x10000 + c.x as int) as u32
}

/// Packs a coordinate into its covered-tiles key.
pub fn coord_key(c: Coordinate) -> (k: u32)
    ensures
        k == spec_key(c),
{
    (c.y as u32) * 0x10000 + (c.x as u32)
}

/// Distinct cells pack to distinct covered-tiles keys.
pub proof fn lemma_key_injective(a: Coordinate, b: Coordinate)
    requires
        spec_key(a) == spec_key(b),
    ensures
        a == b,
{
    assert(a.y as int * 0x10000 + a.x as int == b.y as int * 0x10000 + b.x as int);
    assert(a.x == b.x && a.y == b.y) by (nonlinear_arith)
        requires
            a.y as int * 0x10000 + a.x as int == b.y as int * 0x10000 + b.x as int,
            0 <= a.x as int <= 0xffff,
            0 <= b.x as int <= 0xffff,
            0 <= a.y as int,
            0 <= b.y as int,
    ;
}

/// No coordinate occurs twice.
pub open spec fn no_dups(s: Seq<Coordinate>) -> bool {
    forall|i: int, j: int| 0 <= i < j < s.len() ==> s[i] != s[j]
}

/// Removing position `i` from a duplicate-free sequence removes exactly
/// the element at `i` from its membership, and keeps it duplicate-free.
pub proof fn lemma_remove_contains(s: Seq<Coordinate>, i: int, x: Coordinate)
    requires
        no_dups(s),
        0 <= i < s.len(),
    ensures
        no_dups(s.remove(i)),
        s.remove(i).contains(x) <==> (s.contains(x) && x != s[i]),
{
    let r = s.remove(i);
    assert(forall|j: int| 0 <= j < i ==> r[j] == s[j]);
    assert(forall|j: int| i <= j < r.len() ==> r[j] == s[j + 1]);
    if s.contains(x) && x != s[i] {
        let j = choose|j: int| 0 <= j < s.len() && s[j] == x;
        if j < i {
            assert(r[j] == x);
        } else {
            assert(r[j - 1] == x);
        }
    }
    if r.contains(x) {
        let j = choose|j: int| 0 <= j < r.len() && r[j] == x;
        if j < i {
            assert(s[j] == x);
        } else {
            assert(s[j + 1] == x);
        }
    }
    assert forall|a: int, b: int| 0 <= a < b < r.len() implies r[a] != r[b] by {
        let sa: int = if a < i {
            a
        } else {
            a + 1
        };
        let sb: int = if b < i {
            b
        } else {
            b + 1
        };
        assert(r[a] == s[sa] && r[b] == s[sb]);
    }
}

/// What one call of `try_toggle_mark` for `coord` does: relates the board
/// before (`pre`) and after (`post`) and the returned value.
pub open spec fn toggle_post(pre: Board, post: Board, coord: Coordinate, r: Option<(u64, bool)>) -> bool {
    let key = spec_key(coord);
    &&& post.tile_map == pre.tile_map
    &&& post.bounds == pre.bounds
    &&& post.tile_size == pre.tile_size
    &&& post.entity == pre.entity
    &&& post.covered_tiles@ == pre.covered_tiles@
    &&& if !pre.covered_tiles@.contains_key(key) {
        &&& r is None
        &&& post.marked_tiles@ == pre.marked_tiles@
    } else {
        let was = pre.marked_tiles@.contains(coord);
        &&& r == Some((pre.covered_tiles@[key], !was))
        &&& forall|x: Coordinate|
            post.marked_tiles@.contains(x) <==> if was {
                pre.marked_tiles@.contains(x) && x != coord
            } else {
                pre.marked_tiles@.contains(x) || x == coord
            }
    }
}

/// The per-game state: the generated minefield, the rectangle the board
/// occupies, the cell edge length, the covered-cells mapping (cell key to
/// the collaborator's opaque handle for the cell's covering visual), the
/// flagged cells, and the handle of the board visual itself.
pub struct Board {
    pub tile_map: TileMap,
    pub bounds: Bounds2,
    pub tile_size: i64,
    pub covered_tiles: HashMap<u32, u64>,
    pub marked_tiles: Vec<Coordinate>,
    pub entity: u64,
}

impl Board {
    /// Every covered-tiles key stands for a cell of the grid.
    pub open spec fn covered_keys_wf(self) -> bool {
        &&& forall|k: u32| #[trigger]
            self.covered_tiles@.contains_key(k) ==> exists|c: Coordinate|
                self.tile_map.in_grid(c.x as int, c.y as int) && k == spec_key(c)
        &&& forall|c: Coordinate| #[trigger]
            self.covered_tiles@.contains_key(spec_key(c)) ==> self.tile_map.in_grid(
                c.x as int,
                c.y as int,
            )
    }

    /// Board invariant: the grid is fully generated, the rectangle is the
    /// grid scaled by the tile size and sits within the coordinate budget,
    /// covered keys denote grid cells, and every marked cell is still
    /// covered and marked only once.
    pub open spec fn inv(self) -> bool {
        &&& self.tile_map.inv()
        &&& 1 <= self.tile_size <= MAX_TILE_SIZE
        &&& self.bounds.size.x == self.tile_map.width as int * self.tile_size
        &&& self.bounds.size.y == self.tile_map.height as int * self.tile_size
        &&& 0 <= self.bounds.size.x <= MAX_BOARD_EXTENT
        &&& 0 <= self.bounds.size.y <= MAX_BOARD_EXTENT
        &&& -MAX_POSITION_ABS <= self.bounds.position.x <= MAX_POSITION_ABS
        &&& -MAX_POSITION_ABS <= self.bounds.position.y <= MAX_POSITION_ABS
        &&& self.covered_keys_wf()
        &&& forall|i: int|
            0 <= i < self.marked_tiles@.len() ==> self.covered_tiles@.contains_key(
                spec_key(#[trigger] self.marked_tiles@[i]),
            )
        &&& no_dups(self.marked_tiles@)
    }

    /// The still-covered cells, as a set of coordinates.
    pub open spec fn covered_coords(self) -> Set<Coordinate> {
        Set::new(|c: Coordinate| self.covered_tiles@.contains_key(spec_key(c)))
    }

    /// A marked coordinate is covered (on coordinate level).
    pub proof fn lemma_marked_is_covered(self, c: Coordinate)
        requires
            self.inv(),
            self.marked_tiles@.contains(c),
        ensures
            self.covered_tiles@.contains_key(spec_key(c)),
    {
        let i = choose|i: int| 0 <= i < self.marked_tiles@.len() && self.marked_tiles@[i] == c;
        assert(self.covered_tiles@.contains_key(spec_key(self.marked_tiles@[i])));
    }

    /// Creates the state for one game session: the generated map, the
    /// board rectangle, the cell edge length, and one covered entry per
    /// grid cell.  `handles` lists the collaborator's handles for the
    /// covering visuals, row-major (`handles[y * width + x]`); `entity`
    /// is the handle of the board visual itself.
    pub fn new(
        tile_map: TileMap,
        bounds: Bounds2,
        tile_size: i64,
        handles: &Vec<u64>,
        entity: u64,
    ) -> (r: Board)
        requires
            tile_map.inv(),
            1 <= tile_size <= MAX_TILE_SIZE,
            bounds.size.x == tile_map.width as int * tile_size,
            bounds.size.y == tile_map.height as int * tile_size,
            -MAX_POSITION_ABS <= bounds.position.x <= MAX_POSITION_ABS,
            -MAX_POSITION_ABS <= bounds.position.y <= MAX_POSITION_ABS,
            handles@.len() == tile_map.width as int * tile_map.height as int,
        ensures
            r.inv(),
            r.tile_map == tile_map,
            r.bounds == bounds,
            r.tile_size == tile_size,
            r.entity == entity,
            r.marked_tiles@ == Seq::<Coordinate>::empty(),
            r.covered_tiles@.len() == tile_map.width as int * tile_map.height as int,
            forall|c: Coordinate| #[trigger]
                r.covered_tiles@.contains_key(spec_key(c)) <==> tile_map.in_grid(
                    c.x as int,
                    c.y as int,
                ),
            forall|c: Coordinate|
                tile_map.in_grid(c.x as int, c.y as int) ==> r.covered_tiles@[spec_key(c)]
                    == handles@[#[trigger] tile_map.cell_index(c.x as int, c.y as int)],
    {
        proof {
            lemma_board_extent_bound(tile_map.width as int, tile_size as int);
            lemma_board_extent_bound(tile_map.height as int, tile_size as int);
        }
        let mut covered_tiles: HashMap<u32, u64> = HashMap::new();
        let width = tile_map.width;
        let height = tile_map.height;
        let mut idx: usize = 0;
        let mut y: u16 = 0;
        while y < height
            invariant
                tile_map.inv(),
                width == tile_map.width,
                height == tile_map.height,
                handles@.len() == width as int * height as int,
                y <= height,
                idx == y as int * width as int,
                covered_tiles@.len() == idx,
                forall|c: Coordinate| #[trigger]
                    covered_tiles@.contains_key(spec_key(c)) <==> tile_map.in_grid(
                        c.x as int,
                        c.y as int,
                    ) && tile_map.cell_index(c.x as int, c.y as int) < idx,
                forall|c: Coordinate| #[trigger]
                    covered_tiles@.contains_key(spec_key(c)) ==> covered_tiles@[spec_key(c)]
                        == handles@[tile_map.cell_index(c.x as int, c.y as int)],
                forall|k: u32| #[trigger]
                    covered_tiles@.contains_key(k) ==> exists|c: Coordinate|
                        tile_map.in_grid(c.x as int, c.y as int) && k == spec_key(c),
            decreases height - y,
        {
            let mut x: u16 = 0;
            proof {
                lemma_cell_index_bounds(width as int, height as int, 0, y as int);
            }
            while x < width
                invariant
                    tile_map.inv(),
                    width == tile_map.width,
                    height == tile_map.height,
                    handles@.len() == width as int * height as int,
                    x <= width,
                    y < height,
                    idx == y as int * width as int + x as int,
                    idx <= width as int * height as int,
                    covered_tiles@.len() == idx,
                    forall|c: Coordinate| #[trigger]
                        covered_tiles@.contains_key(spec_key(c)) <==> tile_map.in_grid(
                            c.x as int,
                            c.y as int,
                        ) && tile_map.cell_index(c.x as int, c.y as int) < idx,
                    forall|c: Coordinate| #[trigger]
                        covered_tiles@.contains_key(spec_key(c)) ==> covered_tiles@[spec_key(c)]
                            == handles@[tile_map.cell_index(c.x as int, c.y as int)],
                    forall|k: u32| #[trigger]
                        covered_tiles@.contains_key(k) ==> exists|c: Coordinate|
                            tile_map.in_grid(c.x as int, c.y as int) && k == spec_key(c),
                decreases width - x,
            {
                let c = Coordinate { x, y };
                proof {
                    lemma_cell_index_bounds(width as int, height as int, x as int, y as int);
                    lemma_grid_size_fits(width as int, height as int);
                    assert(!covered_tiles@.contains_key(spec_key(c)));
                }
                let ghost pre = covered_tiles@;
                covered_tiles.insert(coord_key(c), handles[idx]);
                proof {
                    assert forall|c2: Coordinate| #[trigger]
                        covered_tiles@.contains_key(spec_key(c2)) <==> tile_map.in_grid(
                            c2.x as int,
                            c2.y as int,
                        ) && tile_map.cell_index(c2.x as int, c2.y as int) < idx + 1 by {
                        if c2 == c {
                        } else {
                            lemma_key_distinct(c, c2);
                            if tile_map.in_grid(c2.x as int, c2.y as int) {
                                lemma_cell_index_injective(
                                    width as int,
                                    c2.x as int,
                                    c2.y as int,
                                    x as int,
                                    y as int,
                                );
                            }
                        }
                    }
                    assert forall|c2: Coordinate| #[trigger]
                        covered_tiles@.contains_key(spec_key(c2)) implies covered_tiles@[spec_key(
                        c2,
                    )] == handles@[tile_map.cell_index(c2.x as int, c2.y as int)] by {
                        if c2 == c {
                        } else {
                            lemma_key_distinct(c, c2);
                        }
                    }
                }
                x += 1;
                idx += 1;
            }
            proof {
                assert((y as int + 1) * width as int == y as int * width as int + width as int)
                    by (nonlinear_arith);
            }
            y += 1;
        }
        proof {
            assert(idx == height as int * width as int) by (nonlinear_arith)
                requires
                    idx == y as int * width as int,
                    y == height,
            ;
            assert(height as int * width as int == width as int * height as int)
                by (nonlinear_arith);
            assert forall|c: Coordinate| #[trigger]
                covered_tiles@.contains_key(spec_key(c)) <==> tile_map.in_grid(
                c.x as int,
                c.y as int,
            ) by {
                if tile_map.in_grid(c.x as int, c.y as int) {
                    lemma_cell_index_bounds(width as int, height as int, c.x as int, c.y as int);
                }
            }
            assert forall|c: Coordinate|
                tile_map.in_grid(c.x as int, c.y as int) implies covered_tiles@[spec_key(c)]
                == handles@[#[trigger] tile_map.cell_index(c.x as int, c.y as int)] by {
                lemma_cell_index_bounds(width as int, height as int, c.x as int, c.y as int);
                assert(covered_tiles@.contains_key(spec_key(c)));
            }
        }
        Board { tile_map, bounds, tile_size, covered_tiles, marked_tiles: Vec::new(), entity }
    }

    /// True exactly when as many cells are covered as there are bombs:
    /// every safe cell has been revealed.
    pub fn is_completed(&self) -> (r: bool)
        ensures
            r == (self.covered_tiles@.len() == self.tile_map.bomb_count as int),
    {
        self.tile_map.bomb_count() as usize == self.covered_tiles.len()
    }

    /// Whether `coord` is currently flagged.
    pub fn contains_marked(&self, coord: &Coordinate) -> (r: bool)
        ensures
            r == self.marked_tiles@.contains(*coord),
    {
        let n = self.marked_tiles.len();
        let mut i: usize = 0;
        while i < n
            invariant
                i <= n,
                n == self.marked_tiles@.len(),
                forall|j: int| 0 <= j < i ==> self.marked_tiles@[j] != *coord,
            decreases n - i,
        {
            if self.marked_tiles[i] == *coord {
                return true;
            }
            i += 1;
        }
        false
    }

    /// The handle to uncover for a reveal trigger at `coord`: present only
    /// when `coord` is covered and not flagged, so a trigger can never
    /// uncover a flagged cell.
    pub fn tile_to_uncover(&self, coord: &Coordinate) -> (r: Option<u64>)
        ensures
            r == if self.marked_tiles@.contains(*coord) {
                None::<u64>
            } else if self.covered_tiles@.contains_key(spec_key(*coord)) {
                Some(self.covered_tiles@[spec_key(*coord)])
            } else {
                None::<u64>
            },
    {
        if self.contains_marked(coord) {
            None
        } else {
            match self.covered_tiles.get(&coord_key(*coord)) {
                Some(h) => Some(*h),
                None => None,
            }
        }
    }

    /// Drops `coord` from the marked list.  Asking to unmark a coordinate
    /// that is not marked is an internal-consistency anomaly of the
    /// caller; it is answered with `None` and changes nothing.
    fn unmark_tile(&mut self, coord: &Coordinate) -> (r: Option<Coordinate>)
        requires
            no_dups(old(self).marked_tiles@),
        ensures
            final(self).tile_map == old(self).tile_map,
            final(self).bounds == old(self).bounds,
            final(self).tile_size == old(self).tile_size,
            final(self).entity == old(self).entity,
            final(self).covered_tiles@ == old(self).covered_tiles@,
            no_dups(final(self).marked_tiles@),
            r == if old(self).marked_tiles@.contains(*coord) {
                Some(*coord)
            } else {
                None::<Coordinate>
            },
            forall|x: Coordinate|
                final(self).marked_tiles@.contains(x) <==> (old(self).marked_tiles@.contains(x)
                    && x != *coord),
    {
        let n = self.marked_tiles.len();
        let mut i: usize = 0;
        while i < n
            invariant
                i <= n,
                *self == *old(self),
                no_dups(old(self).marked_tiles@),
                n == self.marked_tiles@.len(),
                forall|j: int| 0 <= j < i ==> self.marked_tiles@[j] != *coord,
            decreases n - i,
        {
            if self.marked_tiles[i] == *coord {
                let removed = self.marked_tiles.remove(i);
                proof {
                    assert(old(self).marked_tiles@.contains(*coord));
                    assert forall|x: Coordinate|
                        final(self).marked_tiles@.contains(x) <==> (old(
                            self,
                        ).marked_tiles@.contains(x) && x != *coord) by {
                        lemma_remove_contains(old(self).marked_tiles@, i as int, x);
                    }
                    lemma_remove_contains(old(self).marked_tiles@, i as int, *coord);
                }
                return Some(removed);
            }
            i += 1;
        }
        proof {
            assert(!self.marked_tiles@.contains(*coord));
        }
        None
    }

    /// Removes and returns the covered entry for `coord`, unflagging the
    /// cell first if it was flagged.  Answers `None` when the cell is
    /// already uncovered or out of range.
    pub fn try_uncover_tile(&mut self, coord: &Coordinate) -> (r: Option<u64>)
        requires
            old(self).inv(),
        ensures
            final(self).inv(),
            final(self).tile_map == old(self).tile_map,
            final(self).bounds == old(self).bounds,
            final(self).tile_size == old(self).tile_size,
            final(self).entity == old(self).entity,
            final(self).covered_tiles@ == old(self).covered_tiles@.remove(spec_key(*coord)),
            r == if old(self).covered_tiles@.contains_key(spec_key(*coord)) {
                Some(old(self).covered_tiles@[spec_key(*coord)])
            } else {
                None::<u64>
            },
            forall|x: Coordinate|
                final(self).marked_tiles@.contains(x) <==> (old(self).marked_tiles@.contains(x)
                    && x != *coord),
    {
        if self.contains_marked(coord) {
            self.unmark_tile(coord);
        }
        let r = self.covered_tiles.remove(&coord_key(*coord));
        proof {
            assert forall|i: int|
                0 <= i < self.marked_tiles@.len() implies self.covered_tiles@.contains_key(
                spec_key(#[trigger] self.marked_tiles@[i]),
            ) by {
                let x = self.marked_tiles@[i];
                assert(self.marked_tiles@.contains(x));
                assert(old(self).marked_tiles@.contains(x) && x != *coord);
                old(self).lemma_marked_is_covered(x);
                lemma_key_distinct(x, *coord);
            }
        }
        r
    }

    /// Toggles the flag on a covered cell: answers the cell's covering
    /// handle together with the new flag state, or `None` when the cell
    /// is not covered.  A flag never lands on an uncovered cell.
    pub fn try_toggle_mark(&mut self, coord: &Coordinate) -> (r: Option<(u64, bool)>)
        requires
            old(self).inv(),
        ensures
            final(self).inv(),
            toggle_post(*old(self), *final(self), *coord, r),
    {
        let key = coord_key(*coord);
        let entity: u64 = match self.covered_tiles.get(&key) {
            None => {
                return None;
            },
            Some(h) => *h,
        };
        let mark: bool;
        if self.contains_marked(coord) {
            self.unmark_tile(coord);
            mark = false;
        } else {
            self.marked_tiles.push(*coord);
            mark = true;
            proof {
                assert forall|x: Coordinate|
                    self.marked_tiles@.contains(x) <==> (old(self).marked_tiles@.contains(x) || x
                        == *coord) by {
                    if x == *coord {
                        assert(self.marked_tiles@.last() == x);
                    } else {
                        if old(self).marked_tiles@.contains(x) {
                            let j = choose|j: int|
                                0 <= j < old(self).marked_tiles@.len() && old(
                                    self,
                                ).marked_tiles@[j] == x;
                            assert(self.marked_tiles@[j] == x);
                        } else if self.marked_tiles@.contains(x) {
                            let j = choose|j: int|
                                0 <= j < self.marked_tiles@.len() && self.marked_tiles@[j] == x;
                            assert(old(self).marked_tiles@[j] == x);
                        }
                    }
                }
                assert forall|a: int, b: int|
                    0 <= a < b < self.marked_tiles@.len() implies self.marked_tiles@[a]
                    != self.marked_tiles@[b] by {
                    if b == self.marked_tiles@.len() - 1 {
                        if old(self).marked_tiles@[a] == *coord {
                            assert(old(self).marked_tiles@.contains(*coord));
                        }
                    }
                }
            }
        }
        proof {
            assert forall|i: int|
                0 <= i < self.marked_tiles@.len() implies self.covered_tiles@.contains_key(
                spec_key(#[trigger] self.marked_tiles@[i]),
            ) by {
                let x = self.marked_tiles@[i];
                if x == *coord {
                } else {
                    assert(self.marked_tiles@.contains(x));
                    assert(old(self).marked_tiles@.contains(x));
                    old(self).lemma_marked_is_covered(x);
                }
            }
        }
        Some((entity, mark))
    }

    /// The handles of the 8-neighborhood cells of `c` that are still
    /// covered, in offset order, considering the first `k` offsets.
    pub open spec fn adjacent_covered_upto(self, c: Coordinate, k: int) -> Seq<u64>
        decreases k,
    {
        if k <= 0 {
            Seq::empty()
        } else {
            self.adjacent_covered_upto(c, k - 1) + ({
                if neighbor_repr(c, k - 1) && self.covered_tiles@.contains_key(
                    spec_key(neighbor_of(c, k - 1)),
                ) {
                    seq![self.covered_tiles@[spec_key(neighbor_of(c, k - 1))]]
                } else {
                    Seq::empty()
                }
            })
        }
    }

    /// The handles of the still-covered 8-neighborhood cells of `c`.
    pub open spec fn adjacent_covered(self, c: Coordinate) -> Seq<u64> {
        self.adjacent_covered_upto(c, 8)
    }

    /// The handles of all 8-neighborhood cells of `coord` that are still
    /// covered, in offset order.  Flagged cells are not excluded: the
    /// cascade may uncover them, unflagging on the way, just as a direct
    /// `try_uncover_tile` would.
    pub fn adjacent_covered_tiles(&self, coord: Coordinate) -> (r: Vec<u64>)
        ensures
            r@ == self.adjacent_covered(coord),
    {
        let mut r: Vec<u64> = Vec::new();
        assert(self.adjacent_covered_upto(coord, 0) == Seq::<u64>::empty());
        if let Some(n) = coord.offset(-1, -1) {
            if let Some(h) = self.covered_tiles.get(&coord_key(n)) {
                r.push(*h);
            }
        }
        assert(r@ =~= self.adjacent_covered_upto(coord, 1));
        if let Some(n) = coord.offset(0, -1) {
            if let Some(h) = self.covered_tiles.get(&coord_key(n)) {
                r.push(*h);
            }
        }
        assert(r@ =~= self.adjacent_covered_upto(coord, 2));
        if let Some(n) = coord.offset(1, -1) {
            if let Some(h) = self.covered_tiles.get(&coord_key(n)) {
                r.push(*h);
            }
        }
        assert(r@ =~= self.adjacent_covered_upto(coord, 3));
        if let Some(n) = coord.offset(-1, 0) {
            if let Some(h) = self.covered_tiles.get(&coord_key(n)) {
                r.push(*h);
            }
        }
        assert(r@ =~= self.adjacent_covered_upto(coord, 4));
        if let Some(n) = coord.offset(1, 0) {
            if let Some(h) = self.covered_tiles.get(&coord_key(n)) {
                r.push(*h);
            }
        }
        assert(r@ =~= self.adjacent_covered_upto(coord, 5));
        if let Some(n) = coord.offset(-1, 1) {
            if let Some(h) = self.covered_tiles.get(&coord_key(n)) {
                r.push(*h);
            }
        }
        assert(r@ =~= self.adjacent_covered_upto(coord, 6));
        if let Some(n) = coord.offset(0, 1) {
            if let Some(h) = self.covered_tiles.get(&coord_key(n)) {
                r.push(*h);
            }
        }
        assert(r@ =~= self.adjacent_covered_upto(coord, 7));
        if let Some(n) = coord.offset(1, 1) {
            if let Some(h) = self.covered_tiles.get(&coord_key(n)) {
                r.push(*h);
            }
        }
        assert(r@ =~= self.adjacent_covered_upto(coord, 8));
        r
    }

    /// Maps a raw pointer position (origin top-left, `y` growing
    /// downward) to a board cell.  The position is recentered to board
    /// space (origin at the viewport center, `y` growing upward) and
    /// tested against the boundary rectangle, inclusive on all sides;
    /// inside, the offset from the rectangle's origin is divided by the
    /// tile size, and on the far edges the quotient is clamped so that an
    /// inclusive boundary hit still names a valid edge cell.
    pub fn mouse_position(&self, window_width: i64, window_height: i64, position: IVec2) -> (r:
        Option<Coordinate>)
        requires
            self.inv(),
            0 <= window_width <= MAX_POSITION_ABS,
            0 <= window_height <= MAX_POSITION_ABS,
            -MAX_POSITION_ABS <= position.x <= MAX_POSITION_ABS,
            -MAX_POSITION_ABS <= position.y <= MAX_POSITION_ABS,
        ensures
            ({
                let px = position.x - window_width / 2;
                let py = window_height / 2 - position.y;
                let qx = (px - self.bounds.position.x) / (self.tile_size as int);
                let qy = (py - self.bounds.position.y) / (self.tile_size as int);
                let w = self.tile_map.width as int;
                let h = self.tile_map.height as int;
                if self.bounds.contains(IVec2 { x: px as i64, y: py as i64 }) {
                    r == Some(
                        Coordinate {
                            x: (if qx < w {
                                qx
                            } else {
                                w - 1
                            }) as u16,
                            y: (if qy < h {
                                qy
                            } else {
                                h - 1
                            }) as u16,
                        },
                    )
                } else {
                    r is None
                }
            }),
            r matches Some(c) ==> self.tile_map.in_grid(c.x as int, c.y as int),
    {
        let half_w: i64 = ((window_width as u64) / 2) as i64;
        let half_h: i64 = ((window_height as u64) / 2) as i64;
        let pt = IVec2 { x: position.x - half_w, y: half_h - position.y };
        if !self.bounds.in_bounds(pt) {
            return None;
        }
        let dx: u64 = (pt.x - self.bounds.position.x) as u64;
        let dy: u64 = (pt.y - self.bounds.position.y) as u64;
        let ts: u64 = self.tile_size as u64;
        let qx: u64 = dx / ts;
        let qy: u64 = dy / ts;
        proof {
            vstd::arithmetic::div_mod::lemma_div_is_ordered(
                dx as int,
                self.bounds.size.x as int,
                ts as int,
            );
            vstd::arithmetic::div_mod::lemma_div_multiples_vanish(
                self.tile_map.width as int,
                ts as int,
            );
            vstd::arithmetic::div_mod::lemma_div_is_ordered(
                dy as int,
                self.bounds.size.y as int,
                ts as int,
            );
            vstd::arithmetic::div_mod::lemma_div_multiples_vanish(
                self.tile_map.height as int,
                ts as int,
            );
        }
        let width = self.tile_map.width;
        let height = self.tile_map.height;
        let cx: u16 = if qx < width as u64 {
            qx as u16
        } else {
            width - 1
        };
        let cy: u16 = if qy < height as u64 {
            qy as u16
        } else {
            height - 1
        };
        Some(Coordinate { x: cx, y: cy })
    }
}

/// Law: toggling the flag of a covered cell twice restores the original
/// marked state — afterward exactly the same cells are flagged as before
/// — and both calls hand back the same covering handle, with the second
/// answer undoing the first.
pub proof fn lemma_toggle_mark_round_trip(
    b0: Board,
    b1: Board,
    b2: Board,
    coord: Coordinate,
    r1: Option<(u64, bool)>,
    r2: Option<(u64, bool)>,
)
    requires
        b0.covered_tiles@.contains_key(spec_key(coord)),
        toggle_post(b0, b1, coord, r1),
        toggle_post(b1, b2, coord, r2),
    ensures
        forall|x: Coordinate| b2.marked_tiles@.contains(x) <==> b0.marked_tiles@.contains(x),
        r1 == Some((b0.covered_tiles@[spec_key(coord)], !b0.marked_tiles@.contains(coord))),
        r2 == Some((b0.covered_tiles@[spec_key(coord)], b0.marked_tiles@.contains(coord))),
{
    assert(b1.marked_tiles@.contains(coord) == !b0.marked_tiles@.contains(coord));
}

/// Two distinct coordinates pack to distinct keys (contrapositive of
/// `lemma_key_injective`).
pub proof fn lemma_key_distinct(a: Coordinate, b: Coordinate)
    requires
        a != b,
    ensures
        spec_key(a) != spec_key(b),
{
    if spec_key(a) == spec_key(b) {
        lemma_key_injective(a, b);
    }
}

/// A grid extent scaled by an accepted tile size stays within the board
/// extent budget.
pub proof fn lemma_board_extent_bound(cells: int, tile_size: int)
    requires
        1 <= cells <= 0xffff,
        1 <= tile_size <= MAX_TILE_SIZE,
    ensures
        0 <= cells * tile_size <= MAX_BOARD_EXTENT,
{
    assert(0 <= cells * tile_size <= 0xffff * 0x10_0000) by (nonlinear_arith)
        requires
            1 <= cells <= 0xffff,
            1 <= tile_size <= 0x10_0000,
    ;
}

} // verus!
