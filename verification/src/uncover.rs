use vstd::prelude::*;

use crate::board::{coord_key, spec_key, Board};
use crate::coordinate::Coordinate;
use crate::tile::Tile;
use crate::tile_map::{
    adjacent, lemma_neighbor_bombs_upto_bounds, lemma_neighbor_seq_adjacent,
    lemma_neighbor_seq_complete, neighbor_seq, offset_dx, offset_dy, tile_for_count, TileMap,
};

verus! {

broadcast use vstd::std_specs::hash::group_hash_axioms, vstd::seq_lib::lemma_seq_contains_after_push;

/// A sequence of cells a cascade can walk: every cell is covered,
/// consecutive cells are adjacent, and every cell except possibly the
/// last is `Empty`.
pub open spec fn reveal_path(tm: TileMap, cov: Set<Coordinate>, p: Seq<Coordinate>) -> bool {
    &&& p.len() > 0
    &&& forall|i: int| 0 <= i < p.len() ==> cov.contains(#[trigger] p[i])
    &&& forall|i: int|
        0 <= i < p.len() - 1 ==> tm.tile_at((#[trigger] p[i]).x as int, p[i].y as int)
            == Tile::Empty
    &&& forall|i: int| 0 <= i < p.len() - 1 ==> adjacent(#[trigger] p[i], p[i + 1])
}

/// Cell `c` belongs to the region a reveal trigger at `seed` uncovers:
/// some walk of covered cells leads from `seed` to `c` through `Empty`
/// cells.  For a non-`Empty` seed only the one-cell walk exists, so the
/// region is the seed alone.
#[verifier::opaque]
pub open spec fn reachable(tm: TileMap, cov: Set<Coordinate>, seed: Coordinate, c: Coordinate) -> bool {
    exists|p: Seq<Coordinate>|
        #[trigger] reveal_path(tm, cov, p) && p.first() == seed && p.last() == c
}

/// A covered seed is in its own region.
pub proof fn lemma_reach_seed(tm: TileMap, cov: Set<Coordinate>, seed: Coordinate)
    requires
        cov.contains(seed),
    ensures
        reachable(tm, cov, seed, seed),
{
    reveal(reachable);
    let p = seq![seed];
    assert(p.first() == seed && p.last() == seed);
    assert(reveal_path(tm, cov, p));
}

/// Stepping from a reachable `Empty` cell to a covered neighbor stays in
/// the region.
pub proof fn lemma_reach_step(
    tm: TileMap,
    cov: Set<Coordinate>,
    seed: Coordinate,
    c: Coordinate,
    n: Coordinate,
)
    requires
        reachable(tm, cov, seed, c),
        tm.tile_at(c.x as int, c.y as int) == Tile::Empty,
        adjacent(c, n),
        cov.contains(n),
    ensures
        reachable(tm, cov, seed, n),
{
    reveal(reachable);
    let p = choose|p: Seq<Coordinate>|
        #[trigger] reveal_path(tm, cov, p) && p.first() == seed && p.last() == c;
    let p2 = p.push(n);
    assert(forall|i: int| 0 <= i < p.len() ==> p2[i] == p[i]);
    assert(p2.last() == n);
    assert(reveal_path(tm, cov, p2));
    assert(p2.first() == seed);
}

/// Every reachable cell is covered.
pub proof fn lemma_reach_in_cov(
    tm: TileMap,
    cov: Set<Coordinate>,
    seed: Coordinate,
    c: Coordinate,
)
    requires
        reachable(tm, cov, seed, c),
    ensures
        cov.contains(c),
{
    reveal(reachable);
    let p = choose|p: Seq<Coordinate>|
        #[trigger] reveal_path(tm, cov, p) && p.first() == seed && p.last() == c;
    assert(cov.contains(p[p.len() - 1]));
}

/// Each single neighbor indicator is bounded by the full running count.
proof fn lemma_upto_term_le(tm: TileMap, x: int, y: int, k: int, j: int)
    requires
        0 <= j < k <= 8,
    ensures
        tm.bomb_ind(x + offset_dx(j), y + offset_dy(j)) <= tm.neighbor_bombs_upto(x, y, k),
    decreases k,
{
    lemma_neighbor_bombs_upto_bounds(tm, x, y, k - 1);
    if j < k - 1 {
        lemma_upto_term_le(tm, x, y, k - 1, j);
    }
}

/// On a consistent grid, no neighbor of an `Empty` cell is a bomb.
pub proof fn lemma_empty_has_no_bomb_neighbor(tm: TileMap, c: Coordinate, n: Coordinate)
    requires
        tm.wf_dims(),
        tm.counts_consistent(),
        tm.in_grid(c.x as int, c.y as int),
        tm.tile_at(c.x as int, c.y as int) == Tile::Empty,
        adjacent(c, n),
    ensures
        !tm.bomb_at(n.x as int, n.y as int),
{
    let x = c.x as int;
    let y = c.y as int;
    lemma_neighbor_bombs_upto_bounds(tm, x, y, 8);
    assert(tm.tile_at(x, y) == tile_for_count(tm.neighbor_bombs(x, y)));
    assert(tm.neighbor_bombs(x, y) == 0);
    let dx = n.x - c.x;
    let dy = n.y - c.y;
    let k: int = if dy == -1 {
        if dx == -1 {
            0
        } else if dx == 0 {
            1
        } else {
            2
        }
    } else if dy == 0 {
        if dx == -1 {
            3
        } else {
            4
        }
    } else {
        if dx == -1 {
            5
        } else if dx == 0 {
            6
        } else {
            7
        }
    };
    assert(offset_dx(k) == dx && offset_dy(k) == dy);
    lemma_upto_term_le(tm, x, y, 8, k);
    assert(tm.bomb_ind(n.x as int, n.y as int) == 0);
}

/// A bomb can only be reached as the seed itself: any longer walk would
/// step to it from an `Empty` cell, which a consistent grid forbids.
pub proof fn lemma_bomb_reach_is_seed(
    tm: TileMap,
    cov: Set<Coordinate>,
    seed: Coordinate,
    c: Coordinate,
)
    requires
        tm.wf_dims(),
        tm.counts_consistent(),
        forall|q: Coordinate| cov.contains(q) ==> tm.in_grid(q.x as int, q.y as int),
        reachable(tm, cov, seed, c),
        tm.bomb_at(c.x as int, c.y as int),
    ensures
        c == seed,
{
    reveal(reachable);
    let p = choose|p: Seq<Coordinate>|
        #[trigger] reveal_path(tm, cov, p) && p.first() == seed && p.last() == c;
    if p.len() >= 2 {
        let d = p[p.len() - 2];
        assert(cov.contains(d));
        assert(tm.tile_at(d.x as int, d.y as int) == Tile::Empty);
        assert(adjacent(d, p[p.len() - 1]));
        lemma_empty_has_no_bomb_neighbor(tm, d, c);
        assert(false);
    }
}

/// When the seed is not `Empty`, its region is the seed alone: a longer
/// walk would require the seed itself to be `Empty`.
pub proof fn lemma_region_of_non_empty_seed(
    tm: TileMap,
    cov: Set<Coordinate>,
    seed: Coordinate,
    c: Coordinate,
)
    requires
        tm.tile_at(seed.x as int, seed.y as int) != Tile::Empty,
        reachable(tm, cov, seed, c),
    ensures
        c == seed,
{
    reveal(reachable);
    let p = choose|p: Seq<Coordinate>|
        #[trigger] reveal_path(tm, cov, p) && p.first() == seed && p.last() == c;
    if p.len() >= 2 {
        assert(tm.tile_at((p[0]).x as int, (p[0]).y as int) == Tile::Empty);
        assert(false);
    }
}

/// Walk induction: a set that holds the seed and is closed under
/// stepping from its `Empty` members to covered neighbors holds every
/// reachable cell.
proof fn lemma_closed_region_path(
    tm: TileMap,
    cov: Set<Coordinate>,
    revealed: Set<Coordinate>,
    p: Seq<Coordinate>,
)
    requires
        reveal_path(tm, cov, p),
        revealed.contains(p.first()),
        forall|r: Coordinate, n: Coordinate|
            #![trigger revealed.contains(r), adjacent(r, n)]
            revealed.contains(r) && tm.tile_at(r.x as int, r.y as int) == Tile::Empty && adjacent(
                r,
                n,
            ) && cov.contains(n) ==> revealed.contains(n),
    ensures
        revealed.contains(p.last()),
    decreases p.len(),
{
    reveal(reachable);
    if p.len() > 1 {
        let q = p.drop_last();
        assert(forall|i: int| 0 <= i < q.len() ==> q[i] == p[i]);
        assert(reveal_path(tm, cov, q));
        assert(q.first() == p.first());
        lemma_closed_region_path(tm, cov, revealed, q);
        let d = p[p.len() - 2];
        assert(q.last() == d);
        assert(tm.tile_at(d.x as int, d.y as int) == Tile::Empty);
        assert(adjacent(d, p[p.len() - 1]));
        assert(cov.contains(p.last()));
    }
}

/// As `lemma_closed_region_path`, stated for a reachable cell.
pub proof fn lemma_closed_region(
    tm: TileMap,
    cov: Set<Coordinate>,
    seed: Coordinate,
    revealed: Set<Coordinate>,
    c: Coordinate,
)
    requires
        revealed.contains(seed),
        forall|r: Coordinate, n: Coordinate|
            #![trigger revealed.contains(r), adjacent(r, n)]
            revealed.contains(r) && tm.tile_at(r.x as int, r.y as int) == Tile::Empty && adjacent(
                r,
                n,
            ) && cov.contains(n) ==> revealed.contains(n),
        reachable(tm, cov, seed, c),
    ensures
        revealed.contains(c),
{
    reveal(reachable);
    let p = choose|p: Seq<Coordinate>|
        #[trigger] reveal_path(tm, cov, p) && p.first() == seed && p.last() == c;
    lemma_closed_region_path(tm, cov, revealed, p);
}

/// The flood fill's working guarantee: every covered neighbor of an
/// already-revealed `Empty` cell is itself revealed or still queued.
pub open spec fn cascade_closed(
    tm: TileMap,
    cov: Set<Coordinate>,
    revealed: Set<Coordinate>,
    wl: Seq<Coordinate>,
) -> bool {
    forall|r: Coordinate, n: Coordinate|
        #![trigger revealed.contains(r), adjacent(r, n)]
        revealed.contains(r) && tm.tile_at(r.x as int, r.y as int) == Tile::Empty && adjacent(r, n)
            && cov.contains(n) ==> revealed.contains(n) || wl.contains(n)
}

/// A member of a sequence survives dropping the last element, or was that
/// element.
proof fn lemma_pop_member(wl: Seq<Coordinate>, x: Coordinate)
    requires
        wl.len() > 0,
        wl.contains(x),
    ensures
        wl.drop_last().contains(x) || x == wl.last(),
{
    let j = choose|j: int| 0 <= j < wl.len() && wl[j] == x;
    if j < wl.len() - 1 {
        assert(wl.drop_last()[j] == x);
    }
}

/// Popping an already-revealed cell keeps the cascade closed.
proof fn lemma_closed_pop(
    tm: TileMap,
    cov: Set<Coordinate>,
    revealed: Set<Coordinate>,
    wl: Seq<Coordinate>,
    c: Coordinate,
)
    requires
        cascade_closed(tm, cov, revealed, wl),
        wl.len() > 0,
        c == wl.last(),
        revealed.contains(c),
    ensures
        cascade_closed(tm, cov, revealed, wl.drop_last()),
{
    assert forall|r: Coordinate, n: Coordinate|
        #![trigger revealed.contains(r), adjacent(r, n)]
        revealed.contains(r) && tm.tile_at(r.x as int, r.y as int) == Tile::Empty && adjacent(r, n)
            && cov.contains(n) implies revealed.contains(n) || wl.drop_last().contains(n) by {
        if !revealed.contains(n) {
            assert(wl.contains(n));
            lemma_pop_member(wl, n);
        }
    }
}

/// Popping and revealing a non-`Empty` cell keeps the cascade closed: the
/// new cell brings no expansion duty.
proof fn lemma_closed_pop_non_empty(
    tm: TileMap,
    cov: Set<Coordinate>,
    revealed: Set<Coordinate>,
    wl: Seq<Coordinate>,
    c: Coordinate,
)
    requires
        cascade_closed(tm, cov, revealed, wl),
        wl.len() > 0,
        c == wl.last(),
        tm.tile_at(c.x as int, c.y as int) != Tile::Empty,
    ensures
        cascade_closed(tm, cov, revealed.insert(c), wl.drop_last()),
{
    let rev1 = revealed.insert(c);
    assert forall|r: Coordinate, n: Coordinate|
        #![trigger rev1.contains(r), adjacent(r, n)]
        rev1.contains(r) && tm.tile_at(r.x as int, r.y as int) == Tile::Empty && adjacent(r, n)
            && cov.contains(n) implies rev1.contains(n) || wl.drop_last().contains(n) by {
        assert(revealed.contains(r));
        if !rev1.contains(n) {
            assert(wl.contains(n));
            lemma_pop_member(wl, n);
        }
    }
}

/// Popping and revealing an `Empty` cell keeps the cascade closed once
/// all its covered neighbors have been queued (into a worklist that kept
/// everything but the popped cell).
proof fn lemma_closed_expanded(
    tm: TileMap,
    cov: Set<Coordinate>,
    revealed: Set<Coordinate>,
    wl0: Seq<Coordinate>,
    wl2: Seq<Coordinate>,
    c: Coordinate,
)
    requires
        cascade_closed(tm, cov, revealed, wl0),
        wl0.len() > 0,
        c == wl0.last(),
        forall|x: Coordinate| #[trigger] wl0.drop_last().contains(x) ==> wl2.contains(x),
        forall|n: Coordinate| #[trigger]
            adjacent(c, n) && cov.contains(n) ==> revealed.insert(c).contains(n) || wl2.contains(
                n,
            ),
    ensures
        cascade_closed(tm, cov, revealed.insert(c), wl2),
{
    let rev1 = revealed.insert(c);
    assert forall|r: Coordinate, n: Coordinate|
        #![trigger rev1.contains(r), adjacent(r, n)]
        rev1.contains(r) && tm.tile_at(r.x as int, r.y as int) == Tile::Empty && adjacent(r, n)
            && cov.contains(n) implies rev1.contains(n) || wl2.contains(n) by {
        if r == c {
        } else {
            assert(revealed.contains(r));
            if !rev1.contains(n) {
                assert(wl0.contains(n));
                lemma_pop_member(wl0, n);
            }
        }
    }
}

/// What one reveal trigger produced: the cells that were uncovered, each
/// with the handle of its covering visual; whether a bomb was uncovered
/// (a loss); and whether the board is completed afterward (a win).
pub struct RevealReport {
    pub uncovered: Vec<(Coordinate, u64)>,
    pub exploded: bool,
    pub completed: bool,
}

/// Carries out one reveal trigger, draining the whole cascade.
///
/// A trigger on a flagged, already-uncovered, or out-of-range cell does
/// nothing.  Otherwise the triggered cell's entire region is uncovered,
/// each cell exactly once and nothing else: for an `Empty` seed that is
/// its maximal connected group of `Empty` cells plus every covered cell
/// bordering the group; for a numbered seed just the seed; for a bomb
/// seed just the seed, with the loss signalled and no expansion to any
/// neighbor.  Flags on cascade-uncovered cells are removed with them.
#[verifier::rlimit(100)]
pub fn uncover_tiles(board: &mut Board, trigger: Coordinate) -> (r: RevealReport)
    requires
        old(board).inv(),
    ensures
        final(board).inv(),
        final(board).tile_map == old(board).tile_map,
        final(board).bounds == old(board).bounds,
        final(board).tile_size == old(board).tile_size,
        final(board).entity == old(board).entity,
        r.completed == (final(board).covered_tiles@.len()
            == final(board).tile_map.bomb_count as int),
        (old(board).marked_tiles@.contains(trigger) || !old(board).covered_tiles@.contains_key(
            spec_key(trigger),
        )) ==> {
            &&& *final(board) == *old(board)
            &&& r.uncovered@ == Seq::<(Coordinate, u64)>::empty()
            &&& !r.exploded
        },
        (!old(board).marked_tiles@.contains(trigger) && old(board).covered_tiles@.contains_key(
            spec_key(trigger),
        )) ==> {
            let tm = old(board).tile_map;
            let cov0 = old(board).covered_coords();
            &&& forall|c: Coordinate|
                #![trigger spec_key(c)]
                final(board).covered_tiles@.contains_key(spec_key(c)) <==> (old(
                    board,
                ).covered_tiles@.contains_key(spec_key(c)) && !reachable(tm, cov0, trigger, c))
            &&& forall|k: u32| #[trigger]
                final(board).covered_tiles@.contains_key(k) ==> old(
                    board,
                ).covered_tiles@.contains_key(k) && final(board).covered_tiles@[k] == old(
                    board,
                ).covered_tiles@[k]
            &&& forall|i: int|
                0 <= i < r.uncovered@.len() ==> reachable(
                    tm,
                    cov0,
                    trigger,
                    (#[trigger] r.uncovered@[i]).0,
                ) && r.uncovered@[i].1 == old(board).covered_tiles@[spec_key(r.uncovered@[i].0)]
            &&& forall|i: int, j: int|
                0 <= i < j < r.uncovered@.len() ==> (#[trigger] r.uncovered@[i]).0 != (
                #[trigger] r.uncovered@[j]).0
            &&& forall|c: Coordinate| #[trigger]
                reachable(tm, cov0, trigger, c) ==> exists|i: int|
                    0 <= i < r.uncovered@.len() && (#[trigger] r.uncovered@[i]).0 == c
            &&& (r.exploded <==> tm.bomb_at(trigger.x as int, trigger.y as int))
            &&& (r.exploded ==> forall|c: Coordinate| #[trigger]
                reachable(tm, cov0, trigger, c) ==> c == trigger)
            &&& forall|x: Coordinate| #[trigger]
                final(board).marked_tiles@.contains(x) <==> (old(board).marked_tiles@.contains(x)
                    && !reachable(tm, cov0, trigger, x))
        },
{
    let mut uncovered: Vec<(Coordinate, u64)> = Vec::new();
    if board.tile_to_uncover(&trigger).is_none() {
        let completed = board.is_completed();
        return RevealReport { uncovered, exploded: false, completed };
    }
    let ghost orig = *board;
    let ghost tm = board.tile_map;
    let ghost cov0 = board.covered_coords();
    proof {
        assert(orig == *old(board));
        assert(cov0.contains(trigger));
        lemma_reach_seed(tm, cov0, trigger);
        assert forall|q: Coordinate| cov0.contains(q) implies tm.in_grid(
            q.x as int,
            q.y as int,
        ) by {
            assert(orig.covered_tiles@.contains_key(spec_key(q)));
        }
    }
    let mut worklist: Vec<Coordinate> = Vec::new();
    worklist.push(trigger);
    let mut exploded = false;
    let ghost mut revealed: Set<Coordinate> = Set::empty();
    while worklist.len() > 0
        invariant_except_break
            exploded == false,
            forall|c: Coordinate| #[trigger]
                revealed.contains(c) ==> !tm.bomb_at(c.x as int, c.y as int),
        invariant
            orig.inv(),
            tm == orig.tile_map,
            cov0 == orig.covered_coords(),
            !orig.marked_tiles@.contains(trigger),
            cov0.contains(trigger),
            reachable(tm, cov0, trigger, trigger),
            forall|q: Coordinate| cov0.contains(q) ==> tm.in_grid(q.x as int, q.y as int),
            board.inv(),
            board.tile_map == orig.tile_map,
            board.bounds == orig.bounds,
            board.tile_size == orig.tile_size,
            board.entity == orig.entity,
            revealed.finite(),
            forall|k: u32| #[trigger]
                board.covered_tiles@.contains_key(k) ==> orig.covered_tiles@.contains_key(k)
                    && board.covered_tiles@[k] == orig.covered_tiles@[k],
            forall|c: Coordinate| #[trigger]
                revealed.contains(c) ==> reachable(tm, cov0, trigger, c)
                    && orig.covered_tiles@.contains_key(spec_key(c))
                    && !board.covered_tiles@.contains_key(spec_key(c)),
            forall|c: Coordinate|
                #![trigger spec_key(c)]
                orig.covered_tiles@.contains_key(spec_key(c))
                    && !board.covered_tiles@.contains_key(spec_key(c)) ==> revealed.contains(c),
            forall|i: int|
                0 <= i < worklist@.len() ==> reachable(
                    tm,
                    cov0,
                    trigger,
                    #[trigger] worklist@[i],
                ),
            cascade_closed(tm, cov0, revealed, worklist@),
            revealed.contains(trigger) || worklist@.contains(trigger),
            forall|i: int|
                0 <= i < uncovered@.len() ==> revealed.contains((#[trigger] uncovered@[i]).0)
                    && uncovered@[i].1 == orig.covered_tiles@[spec_key(uncovered@[i].0)],
            forall|c: Coordinate| #[trigger]
                revealed.contains(c) ==> exists|i: int|
                    0 <= i < uncovered@.len() && (#[trigger] uncovered@[i]).0 == c,
            forall|i: int, j: int|
                0 <= i < j < uncovered@.len() ==> (#[trigger] uncovered@[i]).0 != (
                #[trigger] uncovered@[j]).0,
            forall|x: Coordinate| #[trigger]
                board.marked_tiles@.contains(x) <==> (orig.marked_tiles@.contains(x)
                    && !revealed.contains(x)),
        ensures
            exploded ==> {
                &&& tm.bomb_at(trigger.x as int, trigger.y as int)
                &&& revealed.contains(trigger)
                &&& forall|c: Coordinate| #[trigger] revealed.contains(c) ==> c == trigger
                &&& forall|c: Coordinate| #[trigger]
                    reachable(tm, cov0, trigger, c) ==> c == trigger
            },
            !exploded ==> {
                &&& worklist@.len() == 0
                &&& forall|c: Coordinate| #[trigger]
                    revealed.contains(c) ==> !tm.bomb_at(c.x as int, c.y as int)
            },
        decreases board.covered_tiles@.len(), worklist@.len(),
    {
        let ghost wl0 = worklist@;
        let c = worklist.pop().unwrap();
        proof {
            assert(c == wl0[wl0.len() - 1]);
            assert(reachable(tm, cov0, trigger, c));
            lemma_reach_in_cov(tm, cov0, trigger, c);
        }
        let ghost pre = *board;
        let got = board.try_uncover_tile(&c);
        if let Some(h) = got {
            let ghost unc0 = uncovered@;
            let ghost rev0 = revealed;
            uncovered.push((c, h));
            proof {
                revealed = revealed.insert(c);
                assert(!rev0.contains(c));
                assert forall|c2: Coordinate|
                    #![trigger spec_key(c2)]
                    orig.covered_tiles@.contains_key(spec_key(c2))
                        && !board.covered_tiles@.contains_key(spec_key(c2)) implies revealed.contains(
                    c2,
                ) by {
                    if c2 != c {
                        crate::board::lemma_key_distinct(c2, c);
                    }
                }
                assert forall|c2: Coordinate| #[trigger]
                    revealed.contains(c2) implies exists|i: int|
                    0 <= i < uncovered@.len() && (#[trigger] uncovered@[i]).0 == c2 by {
                    if c2 == c {
                        assert((uncovered@[uncovered@.len() - 1]).0 == c2);
                    } else {
                        assert(rev0.contains(c2));
                        let i = choose|i: int|
                            0 <= i < unc0.len() && (#[trigger] unc0[i]).0 == c2;
                        assert((uncovered@[i]).0 == c2);
                    }
                }
                // the seed is either just revealed or still queued
                if !revealed.contains(trigger) {
                    lemma_pop_member(wl0, trigger);
                }
            }
            if board.tile_map.isbomb_at(c) {
                exploded = true;
                proof {
                    let rev0 = revealed.remove(c);
                    assert(revealed == rev0.insert(c));
                    lemma_closed_pop_non_empty(tm, cov0, rev0, wl0, c);
                    lemma_bomb_reach_is_seed(tm, cov0, trigger, c);
                    assert(tm.tile_at(trigger.x as int, trigger.y as int) is Bomb);
                    assert forall|c2: Coordinate| #[trigger]
                        reachable(tm, cov0, trigger, c2) implies c2 == trigger by {
                        lemma_region_of_non_empty_seed(tm, cov0, trigger, c2);
                    }
                }
                break ;
            }
            let num = board.tile_map.bomb_count_at(c);
            proof {
                assert(tm.in_grid(c.x as int, c.y as int));
                assert(!tm.bomb_at(c.x as int, c.y as int));
                assert(tm.tile_at(c.x as int, c.y as int) == tile_for_count(
                    tm.neighbor_bombs(c.x as int, c.y as int),
                ));
            }
            if num == 0 {
                proof {
                    assert(tm.tile_at(c.x as int, c.y as int) == Tile::Empty);
                }
                let ns = board.tile_map.safe_square_at(c);
                let ghost bmid = *board;
                let ghost wlmid = worklist@;
                let mut i: usize = 0;
                while i < ns.len()
                    invariant
                        *board == bmid,
                        ns@ == neighbor_seq(c),
                        i <= ns@.len(),
                        tm == board.tile_map,
                        board.inv(),
                        cov0 == orig.covered_coords(),
                        reachable(tm, cov0, trigger, c),
                        tm.tile_at(c.x as int, c.y as int) == Tile::Empty,
                        forall|k: u32| #[trigger]
                            board.covered_tiles@.contains_key(k)
                                ==> orig.covered_tiles@.contains_key(k),
                        forall|ii: int|
                            0 <= ii < worklist@.len() ==> reachable(
                                tm,
                                cov0,
                                trigger,
                                #[trigger] worklist@[ii],
                            ),
                        forall|x: Coordinate| #[trigger]
                            wlmid.contains(x) ==> worklist@.contains(x),
                        forall|jj: int|
                            0 <= jj < i ==> !board.covered_tiles@.contains_key(
                                spec_key(#[trigger] ns@[jj]),
                            ) || worklist@.contains(ns@[jj]),
                    decreases ns@.len() - i,
                {
                    let n = ns[i];
                    if board.covered_tiles.contains_key(&coord_key(n)) {
                        proof {
                            lemma_neighbor_seq_adjacent(c);
                            assert(adjacent(c, n));
                            assert(orig.covered_tiles@.contains_key(spec_key(n)));
                            assert(cov0.contains(n));
                            lemma_reach_step(tm, cov0, trigger, c, n);
                        }
                        worklist.push(n);
                    }
                    i += 1;
                }
                proof {
                    // every covered neighbor of `c` is now revealed or queued
                    assert forall|n2: Coordinate| #[trigger]
                        adjacent(c, n2) && cov0.contains(n2) implies revealed.contains(n2)
                        || worklist@.contains(n2) by {
                        if board.covered_tiles@.contains_key(spec_key(n2)) {
                            lemma_neighbor_seq_complete(c, n2);
                            let jj = choose|jj: int|
                                0 <= jj < ns@.len() && #[trigger] ns@[jj] == n2;
                            assert(worklist@.contains(ns@[jj]));
                        } else {
                            assert(orig.covered_tiles@.contains_key(spec_key(n2)));
                            assert(revealed.contains(n2));
                        }
                    }
                    let rev0 = revealed.remove(c);
                    assert(revealed == rev0.insert(c));
                    lemma_closed_expanded(tm, cov0, rev0, wl0, worklist@, c);
                }
            } else {
                proof {
                    assert(tm.tile_at(c.x as int, c.y as int) != Tile::Empty);
                    let rev0 = revealed.remove(c);
                    assert(revealed == rev0.insert(c));
                    lemma_closed_pop_non_empty(tm, cov0, rev0, wl0, c);
                }
            }
        } else {
            proof {
                assert(board.covered_tiles@ =~= pre.covered_tiles@);
                assert(orig.covered_tiles@.contains_key(spec_key(c)));
                assert(revealed.contains(c));
                assert forall|x: Coordinate| #[trigger]
                    board.marked_tiles@.contains(x) <==> (orig.marked_tiles@.contains(x)
                        && !revealed.contains(x)) by {
                    if x == c {
                        assert(!board.marked_tiles@.contains(c));
                    }
                }
                if !revealed.contains(trigger) {
                    lemma_pop_member(wl0, trigger);
                }
                lemma_closed_pop(tm, cov0, revealed, wl0, c);
            }
        }
    }
    let completed = board.is_completed();
    proof {
        if !exploded {
            assert(revealed.contains(trigger));
            assert forall|c2: Coordinate| #[trigger]
                reachable(tm, cov0, trigger, c2) implies revealed.contains(c2) by {
                lemma_closed_region(tm, cov0, trigger, revealed, c2);
            }
        } else {
            assert forall|c2: Coordinate| #[trigger]
                reachable(tm, cov0, trigger, c2) implies revealed.contains(c2) by {
            }
        }
        assert forall|c2: Coordinate|
            #![trigger spec_key(c2)]
            board.covered_tiles@.contains_key(spec_key(c2)) <==> (orig.covered_tiles@.contains_key(
                spec_key(c2),
            ) && !reachable(tm, cov0, trigger, c2)) by {}
    }
    let report = RevealReport { uncovered, exploded, completed };
    proof {
        assert forall|c2: Coordinate| #[trigger]
            reachable(tm, cov0, trigger, c2) implies exists|i: int|
            0 <= i < report.uncovered@.len() && (#[trigger] report.uncovered@[i]).0 == c2 by {
            assert(revealed.contains(c2));
            let i = choose|i: int|
                0 <= i < report.uncovered@.len() && (#[trigger] report.uncovered@[i]).0 == c2;
            assert(0 <= i < report.uncovered@.len() && (report.uncovered@[i]).0 == c2);
        }
    }
    report
}

} // verus!
