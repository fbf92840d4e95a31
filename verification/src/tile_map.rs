use vstd::prelude::*;

use rand::Rng;

use crate::coordinate::Coordinate;
use crate::tile::Tile;

verus! {

/// How many uniform samples one bomb placement may reject before the
/// deterministic fallback takes over; collisions are rare enough that the
/// fallback is practically never reached.
const SAMPLE_ATTEMPTS: u16 = 4096;

/// Relies on rand's `thread_rng` and `Rng::gen_range` over `0..n`: the
/// sample lies below `n`, and the call only panics on an empty range,
/// which the precondition rules out.  Nothing is assumed about the
/// distribution of the samples.
#[verifier::external_body]
fn random_below(n: u16) -> (r: u16)
    requires
        1 <= n,
    ensures
        r < n,
{
    rand::thread_rng().gen_range(0..n)
}

/// `x` displacement of the `k`-th of the eight neighbor offsets,
/// enumerated bottom row first, then the middle row, then the top row.
pub open spec fn offset_dx(k: int) -> int {
    if k == 0 {
        -1
    } else if k == 1 {
        0
    } else if k == 2 {
        1
    } else if k == 3 {
        -1
    } else if k == 4 {
        1
    } else if k == 5 {
        -1
    } else if k == 6 {
        0
    } else {
        1
    }
}

/// `y` displacement of the `k`-th of the eight neighbor offsets.
pub open spec fn offset_dy(k: int) -> int {
    if k <= 2 {
        -1
    } else if k <= 4 {
        0
    } else {
        1
    }
}

/// The number of `Bomb` tiles in a sequence of tiles.
pub open spec fn seq_bombs(s: Seq<Tile>) -> int
    decreases s.len(),
{
    if s.len() == 0 {
        0
    } else {
        seq_bombs(s.drop_last()) + if s.last() is Bomb {
            1int
        } else {
            0int
        }
    }
}

/// The tile a safe cell must carry when `n` of its neighbors are bombs.
pub open spec fn tile_for_count(n: int) -> Tile {
    if n == 0 {
        Tile::Empty
    } else {
        Tile::BombNeighbor(n as u8)
    }
}

/// The coordinates produced by adding the first `k` of the eight unit
/// offsets to `c`, in offset order, discarding any result that does not
/// fit a `u16` component.
pub open spec fn neighbor_seq_upto(c: Coordinate, k: int) -> Seq<Coordinate>
    decreases k,
{
    if k <= 0 {
        Seq::empty()
    } else {
        neighbor_seq_upto(c, k - 1) + ({
            let nx = c.x + offset_dx(k - 1);
            let ny = c.y + offset_dy(k - 1);
            if 0 <= nx <= u16::MAX && 0 <= ny <= u16::MAX {
                seq![Coordinate { x: nx as u16, y: ny as u16 }]
            } else {
                Seq::empty()
            }
        })
    }
}

/// The up-to-eight representable neighbor coordinates of `c`.
pub open spec fn neighbor_seq(c: Coordinate) -> Seq<Coordinate> {
    neighbor_seq_upto(c, 8)
}

/// Whether the `k`-th neighbor of `c` has representable (`u16`)
/// components.
pub open spec fn neighbor_repr(c: Coordinate, k: int) -> bool {
    &&& 0 <= c.x + offset_dx(k) <= u16::MAX
    &&& 0 <= c.y + offset_dy(k) <= u16::MAX
}

/// The `k`-th neighbor of `c`.
pub open spec fn neighbor_of(c: Coordinate, k: int) -> Coordinate {
    Coordinate { x: (c.x + offset_dx(k)) as u16, y: (c.y + offset_dy(k)) as u16 }
}

/// Two cells are adjacent when they differ by at most one in each
/// component and are not the same cell.
pub open spec fn adjacent(a: Coordinate, b: Coordinate) -> bool {
    &&& -1 <= b.x - a.x <= 1
    &&& -1 <= b.y - a.y <= 1
    &&& !(b.x == a.x && b.y == a.y)
}

/// Every coordinate the neighbor generator produces is adjacent to its
/// center.
pub proof fn lemma_neighbor_seq_adjacent(c: Coordinate)
    ensures
        forall|i: int|
            0 <= i < neighbor_seq(c).len() ==> adjacent(c, #[trigger] neighbor_seq(c)[i]),
{
    lemma_neighbor_seq_upto_adjacent(c, 8);
}

proof fn lemma_neighbor_seq_upto_adjacent(c: Coordinate, k: int)
    requires
        0 <= k <= 8,
    ensures
        forall|i: int|
            0 <= i < neighbor_seq_upto(c, k).len() ==> adjacent(
                c,
                #[trigger] neighbor_seq_upto(c, k)[i],
            ),
    decreases k,
{
    if k > 0 {
        lemma_neighbor_seq_upto_adjacent(c, k - 1);
        let prev = neighbor_seq_upto(c, k - 1);
        assert forall|i: int|
            0 <= i < neighbor_seq_upto(c, k).len() implies adjacent(
            c,
            #[trigger] neighbor_seq_upto(c, k)[i],
        ) by {
            if i < prev.len() {
                assert(neighbor_seq_upto(c, k)[i] == prev[i]);
            } else {
                assert(neighbor_seq_upto(c, k)[i] == neighbor_of(c, k - 1));
            }
        }
    }
}

/// Every adjacent coordinate appears in the neighbor generator's output.
pub proof fn lemma_neighbor_seq_complete(c: Coordinate, n: Coordinate)
    requires
        adjacent(c, n),
    ensures
        neighbor_seq(c).contains(n),
{
    let dx = n.x - c.x;
    let dy = n.y - c.y;
    let k: int = if dy == -1 {
        if dx == -1 {
            0
        } else if dx == 0 {
            1
        } else {
            2
        }
    } else if dy == 0 {
        if dx == -1 {
            3
        } else {
            4
        }
    } else {
        if dx == -1 {
            5
        } else if dx == 0 {
            6
        } else {
            7
        }
    };
    assert(offset_dx(k) == dx && offset_dy(k) == dy);
    assert(neighbor_repr(c, k));
    assert(neighbor_of(c, k) == n);
    lemma_neighbor_seq_has(c, k, 8);
}

proof fn lemma_neighbor_seq_has(c: Coordinate, k: int, j: int)
    requires
        0 <= k < j <= 8,
        neighbor_repr(c, k),
    ensures
        neighbor_seq_upto(c, j).contains(neighbor_of(c, k)),
    decreases j,
{
    if j == k + 1 {
        let prev = neighbor_seq_upto(c, k);
        assert(neighbor_seq_upto(c, j)[prev.len() as int] == neighbor_of(c, k));
    } else {
        lemma_neighbor_seq_has(c, k, j - 1);
        let s1 = neighbor_seq_upto(c, j - 1);
        let i = choose|i: int| 0 <= i < s1.len() && #[trigger] s1[i] == neighbor_of(c, k);
        assert(neighbor_seq_upto(c, j)[i] == neighbor_of(c, k));
    }
}

/// The rectangular minefield: dimensions, the configured bomb total, and
/// one tile per cell, stored row-major (`tiles[y * width + x]`).
pub struct TileMap {
    pub bomb_count: u16,
    pub height: u16,
    pub width: u16,
    pub tiles: Vec<Tile>,
}

impl TileMap {
    /// The dimensions are positive and the tile array covers the grid.
    pub open spec fn wf_dims(self) -> bool {
        &&& 1 <= self.width
        &&& 1 <= self.height
        &&& self.tiles@.len() == self.width as int * self.height as int
    }

    /// Row-major position of cell (x, y) in the tile array.
    pub open spec fn cell_index(self, x: int, y: int) -> int {
        y * self.width as int + x
    }

    pub open spec fn in_grid(self, x: int, y: int) -> bool {
        &&& 0 <= x < self.width as int
        &&& 0 <= y < self.height as int
    }

    pub open spec fn tile_at(self, x: int, y: int) -> Tile {
        self.tiles@[self.cell_index(x, y)]
    }

    /// Boundary-safe bomb test: false outside the grid.
    pub open spec fn bomb_at(self, x: int, y: int) -> bool {
        self.in_grid(x, y) && self.tile_at(x, y) is Bomb
    }

    /// `bomb_at`, taking the cell as a `Coordinate`.
    pub open spec fn bomb_at_coord(self, c: Coordinate) -> bool {
        self.bomb_at(c.x as int, c.y as int)
    }

    pub open spec fn bomb_ind(self, x: int, y: int) -> int {
        if self.bomb_at(x, y) {
            1
        } else {
            0
        }
    }

    /// Bombs among the first `k` of the eight neighbors of (x, y);
    /// neighbors outside the grid contribute nothing.
    pub open spec fn neighbor_bombs_upto(self, x: int, y: int, k: int) -> int
        decreases k,
    {
        if k <= 0 {
            0
        } else {
            self.neighbor_bombs_upto(x, y, k - 1) + self.bomb_ind(
                x + offset_dx(k - 1),
                y + offset_dy(k - 1),
            )
        }
    }

    /// The true bomb count of the boundary-clipped 8-neighborhood of (x, y).
    pub open spec fn neighbor_bombs(self, x: int, y: int) -> int {
        self.neighbor_bombs_upto(x, y, 8)
    }

    /// What `bomb_count_at` answers: zero for bomb cells and out-of-range
    /// coordinates, the true neighbor bomb count otherwise.
    pub open spec fn spec_bomb_count_at(self, x: int, y: int) -> int {
        if !self.in_grid(x, y) || self.tile_at(x, y) is Bomb {
            0
        } else {
            self.neighbor_bombs(x, y)
        }
    }

    /// Every safe cell carries the tile its true neighbor bomb count
    /// demands: `Empty` exactly when the count is zero.
    pub open spec fn counts_consistent(self) -> bool {
        forall|x: int, y: int|
            self.in_grid(x, y) && !((#[trigger] self.tile_at(x, y)) is Bomb) ==> self.tile_at(x, y)
                == tile_for_count(self.neighbor_bombs(x, y))
    }

    /// Exactly `bomb_count` cells hold a bomb.
    pub open spec fn bombs_placed(self) -> bool {
        seq_bombs(self.tiles@) == self.bomb_count as int
    }

    /// Invariant of a fully generated map.
    pub open spec fn inv(self) -> bool {
        &&& self.wf_dims()
        &&& self.bomb_count as int <= self.width as int * self.height as int
        &&& self.bombs_placed()
        &&& self.counts_consistent()
    }

    /// A freshly created map: every cell `Empty`, no bombs configured.
    pub open spec fn is_fresh(self) -> bool {
        &&& self.wf_dims()
        &&& self.bomb_count == 0
        &&& forall|i: int| 0 <= i < self.tiles@.len() ==> self.tiles@[i] == Tile::Empty
    }

    /// Returns a grid of the given dimensions with all cells `Empty` and
    /// a bomb total of zero.
    pub fn create(width: u16, height: u16) -> (r: TileMap)
        requires
            1 <= width,
            1 <= height,
        ensures
            r.is_fresh(),
            r.inv(),
            r.width == width,
            r.height == height,
            r.bomb_count == 0,
    {
        proof {
            lemma_grid_size_fits(width as int, height as int);
        }
        let n: usize = (width as usize) * (height as usize);
        let mut tiles: Vec<Tile> = Vec::new();
        let mut i: usize = 0;
        while i < n
            invariant
                i <= n,
                tiles@.len() == i,
                forall|j: int| 0 <= j < i ==> tiles@[j] == Tile::Empty,
            decreases n - i,
        {
            tiles.push(Tile::Empty);
            i += 1;
        }
        let r = TileMap { bomb_count: 0, height, width, tiles };
        proof {
            lemma_seq_bombs_all_empty(r.tiles@);
            assert forall|x: int, y: int|
                r.in_grid(x, y) && !((#[trigger] r.tile_at(x, y)) is Bomb) implies r.tile_at(x, y)
                == tile_for_count(r.neighbor_bombs(x, y)) by {
                lemma_cell_index_bounds(width as int, height as int, x, y);
                lemma_fresh_neighbor_bombs(r, x, y, 8);
            }
        }
        r
    }

    pub fn width(&self) -> (r: u16)
        ensures
            r == self.width,
    {
        self.width
    }

    pub fn height(&self) -> (r: u16)
        ensures
            r == self.height,
    {
        self.height
    }

    pub fn bomb_count(&self) -> (r: u16)
        ensures
            r == self.bomb_count,
    {
        self.bomb_count
    }

    /// The up-to-eight neighbor coordinates of `coordinate`, obtained by
    /// adding each unit offset.  Results outside the grid are not excluded
    /// here (beyond those no `u16` can hold); the boundary-safe queries
    /// filter them.
    pub fn safe_square_at(&self, coordinate: Coordinate) -> (r: Vec<Coordinate>)
        ensures
            r@ == neighbor_seq(coordinate),
    {
        let mut r: Vec<Coordinate> = Vec::new();
        assert(neighbor_seq_upto(coordinate, 0) == Seq::<Coordinate>::empty());
        if let Some(n) = coordinate.offset(-1, -1) {
            r.push(n);
        }
        assert(r@ =~= neighbor_seq_upto(coordinate, 1));
        if let Some(n) = coordinate.offset(0, -1) {
            r.push(n);
        }
        assert(r@ =~= neighbor_seq_upto(coordinate, 2));
        if let Some(n) = coordinate.offset(1, -1) {
            r.push(n);
        }
        assert(r@ =~= neighbor_seq_upto(coordinate, 3));
        if let Some(n) = coordinate.offset(-1, 0) {
            r.push(n);
        }
        assert(r@ =~= neighbor_seq_upto(coordinate, 4));
        if let Some(n) = coordinate.offset(1, 0) {
            r.push(n);
        }
        assert(r@ =~= neighbor_seq_upto(coordinate, 5));
        if let Some(n) = coordinate.offset(-1, 1) {
            r.push(n);
        }
        assert(r@ =~= neighbor_seq_upto(coordinate, 6));
        if let Some(n) = coordinate.offset(0, 1) {
            r.push(n);
        }
        assert(r@ =~= neighbor_seq_upto(coordinate, 7));
        if let Some(n) = coordinate.offset(1, 1) {
            r.push(n);
        }
        assert(r@ =~= neighbor_seq_upto(coordinate, 8));
        r
    }

    /// Boundary-safe bomb query: any out-of-range coordinate answers false.
    pub fn isbomb_at(&self, coordinate: Coordinate) -> (r: bool)
        requires
            self.wf_dims(),
        ensures
            r == self.bomb_at(coordinate.x as int, coordinate.y as int),
    {
        if coordinate.x >= self.width || coordinate.y >= self.height {
            return false;
        }
        proof {
            lemma_cell_index_bounds(
                self.width as int,
                self.height as int,
                coordinate.x as int,
                coordinate.y as int,
            );
        }
        let idx: usize = (coordinate.y as usize) * (self.width as usize) + (coordinate.x as usize);
        self.tiles[idx].is_bomb()
    }

    /// Boundary-safe neighbor-count query: zero for bomb cells and for
    /// out-of-range coordinates, the stored count otherwise.
    pub fn bomb_count_at(&self, coordinate: Coordinate) -> (r: u8)
        requires
            self.wf_dims(),
        ensures
            r as int == self.spec_bomb_count_at(coordinate.x as int, coordinate.y as int),
    {
        if coordinate.x >= self.width || coordinate.y >= self.height {
            return 0;
        }
        if self.isbomb_at(coordinate) {
            return 0;
        }
        let ghost x = coordinate.x as int;
        let ghost y = coordinate.y as int;
        proof {
            lemma_neighbor_bombs_upto_bounds(*self, x, y, 8);
        }
        assert(self.neighbor_bombs_upto(x, y, 0) == 0);
        let mut count: u8 = 0;
        if let Some(n) = coordinate.offset(-1, -1) {
            if self.isbomb_at(n) {
                count += 1;
            }
        }
        assert(count as int == self.neighbor_bombs_upto(x, y, 1));
        if let Some(n) = coordinate.offset(0, -1) {
            if self.isbomb_at(n) {
                count += 1;
            }
        }
        assert(count as int == self.neighbor_bombs_upto(x, y, 2));
        if let Some(n) = coordinate.offset(1, -1) {
            if self.isbomb_at(n) {
                count += 1;
            }
        }
        assert(count as int == self.neighbor_bombs_upto(x, y, 3));
        if let Some(n) = coordinate.offset(-1, 0) {
            if self.isbomb_at(n) {
                count += 1;
            }
        }
        assert(count as int == self.neighbor_bombs_upto(x, y, 4));
        if let Some(n) = coordinate.offset(1, 0) {
            if self.isbomb_at(n) {
                count += 1;
            }
        }
        assert(count as int == self.neighbor_bombs_upto(x, y, 5));
        if let Some(n) = coordinate.offset(-1, 1) {
            if self.isbomb_at(n) {
                count += 1;
            }
        }
        assert(count as int == self.neighbor_bombs_upto(x, y, 6));
        if let Some(n) = coordinate.offset(0, 1) {
            if self.isbomb_at(n) {
                count += 1;
            }
        }
        assert(count as int == self.neighbor_bombs_upto(x, y, 7));
        if let Some(n) = coordinate.offset(1, 1) {
            if self.isbomb_at(n) {
                count += 1;
            }
        }
        assert(count as int == self.neighbor_bombs_upto(x, y, 8));
        count
    }

    /// One round of rejection sampling: up to `SAMPLE_ATTEMPTS` uniform
    /// samples, turning the first sampled cell that is still `Empty` into
    /// a bomb.
    fn try_random_bomb(&mut self) -> (placed: bool)
        requires
            old(self).wf_dims(),
        ensures
            final(self).width == old(self).width,
            final(self).height == old(self).height,
            final(self).bomb_count == old(self).bomb_count,
            placed ==> exists|i: int|
                0 <= i < old(self).tiles@.len() && old(self).tiles@[i] == Tile::Empty
                    && final(self).tiles@ == old(self).tiles@.update(i, Tile::Bomb),
            !placed ==> final(self).tiles@ == old(self).tiles@,
    {
        let mut attempt: u16 = 0;
        while attempt < SAMPLE_ATTEMPTS
            invariant
                self.width == old(self).width,
                self.height == old(self).height,
                self.bomb_count == old(self).bomb_count,
                self.tiles@ == old(self).tiles@,
                old(self).wf_dims(),
            decreases SAMPLE_ATTEMPTS - attempt,
        {
            let x = random_below(self.width);
            let y = random_below(self.height);
            proof {
                lemma_cell_index_bounds(
                    self.width as int,
                    self.height as int,
                    x as int,
                    y as int,
                );
            }
            let idx: usize = (y as usize) * (self.width as usize) + (x as usize);
            if matches!(self.tiles[idx], Tile::Empty) {
                self.tiles[idx] = Tile::Bomb;
                return true;
            }
            attempt += 1;
        }
        false
    }

    /// Deterministic fallback for a round of placement: turn the first
    /// `Empty` cell into a bomb.  The bomb budget guarantees such a cell
    /// exists.
    fn place_first_empty(&mut self)
        requires
            old(self).wf_dims(),
            seq_bombs(old(self).tiles@) < old(self).tiles@.len(),
            forall|i: int|
                0 <= i < old(self).tiles@.len() ==> old(self).tiles@[i] == Tile::Empty || old(
                    self,
                ).tiles@[i] is Bomb,
        ensures
            final(self).width == old(self).width,
            final(self).height == old(self).height,
            final(self).bomb_count == old(self).bomb_count,
            exists|i: int|
                0 <= i < old(self).tiles@.len() && old(self).tiles@[i] == Tile::Empty
                    && final(self).tiles@ == old(self).tiles@.update(i, Tile::Bomb),
    {
        let n: usize = self.tiles.len();
        let mut i: usize = 0;
        while i < n
            invariant
                i <= n,
                n == self.tiles@.len(),
                self.width == old(self).width,
                self.height == old(self).height,
                self.bomb_count == old(self).bomb_count,
                self.tiles@ == old(self).tiles@,
                seq_bombs(self.tiles@) < self.tiles@.len(),
                forall|j: int|
                    0 <= j < self.tiles@.len() ==> self.tiles@[j] == Tile::Empty
                        || self.tiles@[j] is Bomb,
                forall|j: int| 0 <= j < i ==> self.tiles@[j] is Bomb,
            decreases n - i,
        {
            if matches!(self.tiles[i], Tile::Empty) {
                self.tiles[i] = Tile::Bomb;
                return ;
            }
            i += 1;
        }
        proof {
            lemma_seq_bombs_all(self.tiles@);
            assert(false);
        }
    }

    /// Second pass of placement: stamp every safe cell with its true
    /// neighbor bomb count, leaving bombs (and hence every count) as they
    /// are.
    fn assign_neighbor_tags(&mut self)
        requires
            old(self).wf_dims(),
            forall|i: int|
                0 <= i < old(self).tiles@.len() ==> old(self).tiles@[i] == Tile::Empty || old(
                    self,
                ).tiles@[i] is Bomb,
        ensures
            final(self).wf_dims(),
            final(self).width == old(self).width,
            final(self).height == old(self).height,
            final(self).bomb_count == old(self).bomb_count,
            final(self).tiles@.len() == old(self).tiles@.len(),
            forall|i: int|
                0 <= i < final(self).tiles@.len() ==> ((#[trigger] final(self).tiles@[i]) is Bomb
                    <==> old(self).tiles@[i] is Bomb),
            final(self).counts_consistent(),
    {
        let ghost snap = *old(self);
        let mut y: u16 = 0;
        while y < self.height
            invariant
                snap.wf_dims(),
                forall|i: int|
                    0 <= i < snap.tiles@.len() ==> snap.tiles@[i] == Tile::Empty
                        || snap.tiles@[i] is Bomb,
                self.width == snap.width,
                self.height == snap.height,
                self.bomb_count == snap.bomb_count,
                self.tiles@.len() == snap.tiles@.len(),
                y <= self.height,
                forall|i: int|
                    0 <= i < self.tiles@.len() ==> ((#[trigger] self.tiles@[i]) is Bomb
                        <==> snap.tiles@[i] is Bomb),
                forall|px: int, py: int|
                    self.in_grid(px, py) && py < y && !((#[trigger] self.tile_at(px, py)) is Bomb)
                        ==> self.tile_at(px, py) == tile_for_count(snap.neighbor_bombs(px, py)),
                forall|px: int, py: int|
                    self.in_grid(px, py) && py >= y ==> (#[trigger] self.tile_at(px, py))
                        == snap.tile_at(px, py),
            decreases self.height - y,
        {
            let mut x: u16 = 0;
            while x < self.width
                invariant
                    snap.wf_dims(),
                    forall|i: int|
                        0 <= i < snap.tiles@.len() ==> snap.tiles@[i] == Tile::Empty
                            || snap.tiles@[i] is Bomb,
                    self.width == snap.width,
                    self.height == snap.height,
                    self.bomb_count == snap.bomb_count,
                    self.tiles@.len() == snap.tiles@.len(),
                    x <= self.width,
                    y < self.height,
                    forall|i: int|
                        0 <= i < self.tiles@.len() ==> ((#[trigger] self.tiles@[i]) is Bomb
                            <==> snap.tiles@[i] is Bomb),
                    forall|px: int, py: int|
                        self.in_grid(px, py) && (py < y || (py == y && px < x)) && !((
                        #[trigger] self.tile_at(px, py)) is Bomb) ==> self.tile_at(px, py)
                            == tile_for_count(snap.neighbor_bombs(px, py)),
                    forall|px: int, py: int|
                        self.in_grid(px, py) && (py > y || (py == y && px >= x)) ==> (
                        #[trigger] self.tile_at(px, py)) == snap.tile_at(px, py),
                decreases self.width - x,
            {
                let coord = Coordinate { x, y };
                proof {
                    lemma_cell_index_bounds(
                        self.width as int,
                        self.height as int,
                        x as int,
                        y as int,
                    );
                }
                if !self.isbomb_at(coord) {
                    let num = self.bomb_count_at(coord);
                    proof {
                        assert forall|px: int, py: int| self.bomb_at(px, py) == snap.bomb_at(
                            px,
                            py,
                        ) by {
                            if self.in_grid(px, py) {
                                lemma_cell_index_bounds(
                                    self.width as int,
                                    self.height as int,
                                    px,
                                    py,
                                );
                            }
                        }
                        lemma_neighbor_bombs_same(*self, snap, x as int, y as int, 8);
                    }
                    if num > 0 {
                        let ghost pre = *self;
                        let idx: usize = (y as usize) * (self.width as usize) + (x as usize);
                        self.tiles[idx] = Tile::BombNeighbor(num);
                        proof {
                            assert forall|px: int, py: int|
                                self.in_grid(px, py) && !(px == x as int && py == y as int) implies (
                            #[trigger] self.tile_at(px, py)) == pre.tile_at(px, py) by {
                                lemma_cell_index_bounds(
                                    self.width as int,
                                    self.height as int,
                                    px,
                                    py,
                                );
                                lemma_cell_index_injective(
                                    self.width as int,
                                    px,
                                    py,
                                    x as int,
                                    y as int,
                                );
                            }
                            assert(self.tile_at(x as int, y as int) == Tile::BombNeighbor(num));
                        }
                    } else {
                        proof {
                            assert(self.tile_at(x as int, y as int) == snap.tile_at(
                                x as int,
                                y as int,
                            ));
                            assert(snap.tiles@[snap.cell_index(x as int, y as int)]
                                == Tile::Empty || snap.tiles@[snap.cell_index(
                                x as int,
                                y as int,
                            )] is Bomb);
                            assert(self.tile_at(x as int, y as int) == Tile::Empty);
                        }
                    }
                }
                x += 1;
            }
            y += 1;
        }
        proof {
            assert forall|px: int, py: int| #[trigger] self.bomb_at(px, py) == snap.bomb_at(
                px,
                py,
            ) by {
                if self.in_grid(px, py) {
                    lemma_cell_index_bounds(self.width as int, self.height as int, px, py);
                }
            }
            assert forall|px: int, py: int|
                self.in_grid(px, py) && !((#[trigger] self.tile_at(px, py)) is Bomb) implies self.tile_at(
                px,
                py,
            ) == tile_for_count(self.neighbor_bombs(px, py)) by {
                lemma_neighbor_bombs_same(*self, snap, px, py, 8);
            }
        }
    }

    /// Places `count` bombs on a freshly created map, each on a uniformly
    /// sampled cell, resampling on collision (with a deterministic
    /// fallback after `SAMPLE_ATTEMPTS` rejections, so placement always
    /// terminates), then stamps every safe cell with its neighbor count.
    pub fn set_bombs(&mut self, bomb_count: u16)
        requires
            old(self).is_fresh(),
            bomb_count as int <= old(self).width as int * old(self).height as int,
        ensures
            final(self).inv(),
            final(self).width == old(self).width,
            final(self).height == old(self).height,
            final(self).bomb_count == bomb_count,
    {
        proof {
            lemma_seq_bombs_all_empty(old(self).tiles@);
        }
        self.bomb_count = bomb_count;
        let mut remaining: u16 = bomb_count;
        while remaining > 0
            invariant
                self.wf_dims(),
                self.width == old(self).width,
                self.height == old(self).height,
                self.bomb_count == bomb_count,
                remaining <= bomb_count,
                bomb_count as int <= self.width as int * self.height as int,
                seq_bombs(self.tiles@) == bomb_count - remaining,
                forall|i: int|
                    0 <= i < self.tiles@.len() ==> self.tiles@[i] == Tile::Empty
                        || self.tiles@[i] is Bomb,
            decreases remaining,
        {
            let ghost pre = *self;
            let placed = self.try_random_bomb();
            if !placed {
                self.place_first_empty();
            }
            proof {
                let i = choose|i: int|
                    0 <= i < pre.tiles@.len() && pre.tiles@[i] == Tile::Empty && self.tiles@
                        == pre.tiles@.update(i, Tile::Bomb);
                lemma_seq_bombs_update(pre.tiles@, i, Tile::Bomb);
            }
            remaining -= 1;
        }
        let ghost mid = *self;
        self.assign_neighbor_tags();
        proof {
            lemma_seq_bombs_same(self.tiles@, mid.tiles@);
        }
    }

    /// Places a bomb on each listed cell of a freshly created map, then
    /// stamps every safe cell with its neighbor count.  Deterministic
    /// counterpart of `set_bombs` for callers that fix the layout.
    pub fn set_bombs_at(&mut self, bombs: &Vec<Coordinate>)
        requires
            old(self).is_fresh(),
            bombs@.len() <= u16::MAX,
            forall|k: int|
                0 <= k < bombs@.len() ==> old(self).in_grid(
                    (#[trigger] bombs@[k]).x as int,
                    bombs@[k].y as int,
                ),
            forall|k1: int, k2: int| 0 <= k1 < k2 < bombs@.len() ==> bombs@[k1] != bombs@[k2],
        ensures
            final(self).inv(),
            final(self).width == old(self).width,
            final(self).height == old(self).height,
            final(self).bomb_count as int == bombs@.len(),
            forall|c: Coordinate| #[trigger] final(self).bomb_at_coord(c) <==> bombs@.contains(c),
    {
        proof {
            lemma_seq_bombs_all_empty(old(self).tiles@);
            assert(bombs@.take(0) =~= Seq::<Coordinate>::empty());
            assert forall|c: Coordinate| !(#[trigger] self.bomb_at_coord(c)) by {
                if self.in_grid(c.x as int, c.y as int) {
                    lemma_cell_index_bounds(
                        self.width as int,
                        self.height as int,
                        c.x as int,
                        c.y as int,
                    );
                }
            }
        }
        let n: usize = bombs.len();
        let mut k: usize = 0;
        while k < n
            invariant
                self.wf_dims(),
                self.width == old(self).width,
                self.height == old(self).height,
                self.bomb_count == 0,
                k <= n,
                n == bombs@.len(),
                n <= u16::MAX,
                forall|j: int|
                    0 <= j < bombs@.len() ==> self.in_grid(
                        (#[trigger] bombs@[j]).x as int,
                        bombs@[j].y as int,
                    ),
                forall|k1: int, k2: int| 0 <= k1 < k2 < bombs@.len() ==> bombs@[k1] != bombs@[k2],
                seq_bombs(self.tiles@) == k,
                forall|i: int|
                    0 <= i < self.tiles@.len() ==> self.tiles@[i] == Tile::Empty
                        || self.tiles@[i] is Bomb,
                forall|c: Coordinate| #[trigger] self.bomb_at_coord(c) <==> bombs@.take(
                    k as int,
                ).contains(c),
            decreases n - k,
        {
            let c = bombs[k];
            proof {
                lemma_cell_index_bounds(
                    self.width as int,
                    self.height as int,
                    c.x as int,
                    c.y as int,
                );
                assert(!self.bomb_at_coord(c)) by {
                    if self.bomb_at_coord(c) {
                        let j = choose|j: int|
                            0 <= j < k && #[trigger] bombs@.take(k as int)[j] == c;
                        assert(bombs@[j] == bombs@[k as int]);
                    }
                }
            }
            let ghost pre = *self;
            let idx: usize = (c.y as usize) * (self.width as usize) + (c.x as usize);
            self.tiles[idx] = Tile::Bomb;
            proof {
                lemma_seq_bombs_update(pre.tiles@, idx as int, Tile::Bomb);
                assert forall|c2: Coordinate| #[trigger] self.bomb_at_coord(c2) <==> bombs@.take(
                    k + 1,
                ).contains(c2) by {
                    assert(pre.bomb_at_coord(c2) <==> bombs@.take(k as int).contains(c2));
                    if c2 == c {
                        assert(bombs@.take(k + 1)[k as int] == c);
                        assert(self.bomb_at_coord(c2));
                    } else {
                        if self.in_grid(c2.x as int, c2.y as int) {
                            lemma_cell_index_bounds(
                                self.width as int,
                                self.height as int,
                                c2.x as int,
                                c2.y as int,
                            );
                            lemma_cell_index_injective(
                                self.width as int,
                                c2.x as int,
                                c2.y as int,
                                c.x as int,
                                c.y as int,
                            );
                            assert(self.bomb_at_coord(c2) == pre.bomb_at_coord(c2));
                        } else {
                            assert(!self.bomb_at_coord(c2) && !pre.bomb_at_coord(c2));
                        }
                        if bombs@.take(k + 1).contains(c2) {
                            let j = choose|j: int|
                                0 <= j < k + 1 && #[trigger] bombs@.take(k + 1)[j] == c2;
                            assert(bombs@.take(k as int)[j] == c2);
                        } else if bombs@.take(k as int).contains(c2) {
                            let j = choose|j: int|
                                0 <= j < k && #[trigger] bombs@.take(k as int)[j] == c2;
                            assert(bombs@.take(k + 1)[j] == c2);
                        }
                    }
                }
            }
            k += 1;
        }
        let ghost mid = *self;
        self.bomb_count = bombs.len() as u16;
        proof {
            lemma_seq_bombs_le_len(self.tiles@);
            assert(bombs@.take(n as int) =~= bombs@);
        }
        self.assign_neighbor_tags();
        proof {
            lemma_seq_bombs_same(self.tiles@, mid.tiles@);
            assert forall|c: Coordinate| #[trigger] self.bomb_at_coord(c) <==> bombs@.contains(
                c,
            ) by {
                assert(mid.bomb_at_coord(c) <==> bombs@.take(n as int).contains(c));
                if self.in_grid(c.x as int, c.y as int) {
                    lemma_cell_index_bounds(
                        self.width as int,
                        self.height as int,
                        c.x as int,
                        c.y as int,
                    );
                    assert(self.bomb_at_coord(c) == mid.bomb_at_coord(c));
                } else {
                    assert(!self.bomb_at_coord(c) && !mid.bomb_at_coord(c));
                }
            }
        }
    }
}

/// A cell of the grid has a tile-array position inside the array; for a
/// grid with `u16` dimensions that position also fits 32 bits, so it can
/// be computed as a `usize` on any supported machine.
pub proof fn lemma_cell_index_bounds(w: int, h: int, x: int, y: int)
    requires
        0 <= x < w <= 0xffff,
        0 <= y < h <= 0xffff,
    ensures
        0 <= y * w + x < w * h,
        y * w + x < 0x1_0000_0000,
        0 <= y * w < 0x1_0000_0000,
{
    assert(0 <= y * w + x < w * h && y * w + x < 0x1_0000_0000 && 0 <= y * w < 0x1_0000_0000)
        by (nonlinear_arith)
        requires
            0 <= x < w <= 0xffff,
            0 <= y < h <= 0xffff,
    ;
}

/// Distinct cells of the grid have distinct tile-array positions.
pub proof fn lemma_cell_index_injective(w: int, x1: int, y1: int, x2: int, y2: int)
    requires
        0 <= x1 < w,
        0 <= x2 < w,
        0 <= y1,
        0 <= y2,
    ensures
        (y1 * w + x1 == y2 * w + x2) <==> (x1 == x2 && y1 == y2),
{
    assert((y1 * w + x1 == y2 * w + x2) <==> (x1 == x2 && y1 == y2)) by (nonlinear_arith)
        requires
            0 <= x1 < w,
            0 <= x2 < w,
            0 <= y1,
            0 <= y2,
    ;
}

/// A grid with `u16` dimensions has at most `0xffff * 0xffff` cells, a
/// number every supported `usize` can hold.
pub proof fn lemma_grid_size_fits(w: int, h: int)
    requires
        0 <= w <= 0xffff,
        0 <= h <= 0xffff,
    ensures
        0 <= w * h < 0x1_0000_0000,
{
    assert(0 <= w * h < 0x1_0000_0000) by (nonlinear_arith)
        requires
            0 <= w <= 0xffff,
            0 <= h <= 0xffff,
    ;
}

/// A sequence of `Empty` tiles holds no bombs.
proof fn lemma_seq_bombs_all_empty(s: Seq<Tile>)
    requires
        forall|i: int| 0 <= i < s.len() ==> s[i] == Tile::Empty,
    ensures
        seq_bombs(s) == 0,
    decreases s.len(),
{
    if s.len() > 0 {
        lemma_seq_bombs_all_empty(s.drop_last());
    }
}

/// On an all-`Empty` map no neighborhood holds a bomb.
proof fn lemma_fresh_neighbor_bombs(m: TileMap, x: int, y: int, k: int)
    requires
        m.wf_dims(),
        forall|i: int| 0 <= i < m.tiles@.len() ==> m.tiles@[i] == Tile::Empty,
        0 <= k <= 8,
    ensures
        m.neighbor_bombs_upto(x, y, k) == 0,
    decreases k,
{
    if k > 0 {
        lemma_fresh_neighbor_bombs(m, x, y, k - 1);
        let nx = x + offset_dx(k - 1);
        let ny = y + offset_dy(k - 1);
        if m.in_grid(nx, ny) {
            lemma_cell_index_bounds(m.width as int, m.height as int, nx, ny);
        }
    }
}

/// Replacing one tile changes the bomb total by the difference of the two
/// tiles' bomb indicators.
pub proof fn lemma_seq_bombs_update(s: Seq<Tile>, i: int, t: Tile)
    requires
        0 <= i < s.len(),
    ensures
        seq_bombs(s.update(i, t)) == seq_bombs(s) - (if s[i] is Bomb {
            1int
        } else {
            0int
        }) + (if t is Bomb {
            1int
        } else {
            0int
        }),
    decreases s.len(),
{
    let s2 = s.update(i, t);
    if i == s.len() - 1 {
        assert(s2.drop_last() =~= s.drop_last());
    } else {
        assert(s2.drop_last() =~= s.drop_last().update(i, t));
        lemma_seq_bombs_update(s.drop_last(), i, t);
    }
}

/// A sequence never holds more bombs than tiles.
pub proof fn lemma_seq_bombs_le_len(s: Seq<Tile>)
    ensures
        0 <= seq_bombs(s) <= s.len(),
    decreases s.len(),
{
    if s.len() > 0 {
        lemma_seq_bombs_le_len(s.drop_last());
    }
}

/// A sequence of nothing but bombs holds exactly as many bombs as tiles.
proof fn lemma_seq_bombs_all(s: Seq<Tile>)
    requires
        forall|i: int| 0 <= i < s.len() ==> s[i] is Bomb,
    ensures
        seq_bombs(s) == s.len(),
    decreases s.len(),
{
    if s.len() > 0 {
        lemma_seq_bombs_all(s.drop_last());
    }
}

/// Two tile sequences with bombs at the same positions hold the same
/// number of bombs.
proof fn lemma_seq_bombs_same(a: Seq<Tile>, b: Seq<Tile>)
    requires
        a.len() == b.len(),
        forall|i: int| 0 <= i < a.len() ==> ((#[trigger] a[i]) is Bomb <==> b[i] is Bomb),
    ensures
        seq_bombs(a) == seq_bombs(b),
    decreases a.len(),
{
    if a.len() > 0 {
        lemma_seq_bombs_same(a.drop_last(), b.drop_last());
    }
}

/// Neighbor bomb counts depend only on where the bombs lie.
proof fn lemma_neighbor_bombs_same(a: TileMap, b: TileMap, x: int, y: int, k: int)
    requires
        forall|px: int, py: int| #[trigger] a.bomb_at(px, py) == b.bomb_at(px, py),
        0 <= k,
    ensures
        a.neighbor_bombs_upto(x, y, k) == b.neighbor_bombs_upto(x, y, k),
    decreases k,
{
    if k > 0 {
        lemma_neighbor_bombs_same(a, b, x, y, k - 1);
        assert(a.bomb_at(x + offset_dx(k - 1), y + offset_dy(k - 1)) == b.bomb_at(
            x + offset_dx(k - 1),
            y + offset_dy(k - 1),
        ));
    }
}

/// Each neighbor contributes at most one bomb to the running count.
pub proof fn lemma_neighbor_bombs_upto_bounds(m: TileMap, x: int, y: int, k: int)
    requires
        0 <= k,
    ensures
        0 <= m.neighbor_bombs_upto(x, y, k) <= k,
    decreases k,
{
    if k > 0 {
        lemma_neighbor_bombs_upto_bounds(m, x, y, k - 1);
    }
}

} // verus!
