use vstd::prelude::*;

use crate::grid::{
    any_slide_moved, do_slide, edge_distance, holds_absorbable, in_bounds, index_of,
    lemma_index_injective, lemma_occupied_pointwise, lemma_occupied_update, lemma_slide_dest,
    move_changes, moved_cells, occupied_count, position_of, prepare_cells, render_cells,
    run_slides, slide_dest, slide_moves, step_position, traversal_position, Cell, Direction,
    Position,
};
use crate::tile::{Tile, TileState};

verus! {

/// A move whose traversal slides nothing leaves the cells as they were.
proof fn lemma_no_move_fixpoint(c: Seq<Cell>, d: Direction, k: int)
    requires
        c.len() == 16,
        0 <= k,
        !any_slide_moved(c, d, k),
    ensures
        run_slides(c, d, k) == c,
    decreases k,
{
    if k > 0 {
        lemma_no_move_fixpoint(c, d, k - 1);
    }
}

/// Preparing an already prepared board changes nothing: each tile is
/// already Static and already remembers its own cell.
proof fn lemma_prepare_idempotent(c: Seq<Cell>)
    ensures
        prepare_cells(prepare_cells(c)) == prepare_cells(c),
{
    assert(prepare_cells(prepare_cells(c)) =~= prepare_cells(c));
}

/// The law of terminal directions: when a move in `d` slides no tile, the
/// cells come out exactly prepared and nothing spawns (so `move_in` leaves
/// the board's tiles in place), and a second move in `d` again slides no
/// tile and changes nothing.
pub proof fn lemma_terminal_direction_idempotent(c: Seq<Cell>, d: Direction)
    requires
        c.len() == 16,
        !move_changes(c, d),
    ensures
        moved_cells(c, d) == prepare_cells(c),
        !move_changes(moved_cells(c, d), d),
        moved_cells(moved_cells(c, d), d) == moved_cells(c, d),
{
    lemma_no_move_fixpoint(prepare_cells(c), d, 16);
    lemma_prepare_idempotent(c);
}

/// One traversal step never adds a tile: a slide either moves a tile into
/// an empty cell or merges two tiles into one.
proof fn lemma_do_slide_occupancy(c: Seq<Cell>, start: Position, d: Direction)
    requires
        c.len() == 16,
        in_bounds(start),
    ensures
        do_slide(c, start, d).len() == 16,
        occupied_count(do_slide(c, start, d)) <= occupied_count(c),
{
    match c[index_of(start)] {
        None => {},
        Some(t) => {
            let (dest, merged) = slide_dest(c, t.number, start, d);
            if dest != start {
                lemma_slide_dest(c, t.number, start, d);
                if index_of(dest) == index_of(start) {
                    lemma_index_injective(dest, start);
                }
                let moved_tile = if merged {
                    Tile {
                        number: (2 * t.number) as u64,
                        state: TileState::Merged,
                        previous_position: t.previous_position,
                    }
                } else {
                    t
                };
                let c1 = c.update(index_of(start), None);
                lemma_occupied_update(c, index_of(start), None);
                lemma_occupied_update(c1, index_of(dest), Some(moved_tile));
            }
        },
    }
}

/// A whole traversal never adds a tile.
proof fn lemma_run_slides_occupancy(c: Seq<Cell>, d: Direction, k: int)
    requires
        c.len() == 16,
        0 <= k <= 16,
    ensures
        run_slides(c, d, k).len() == 16,
        occupied_count(run_slides(c, d, k)) <= occupied_count(c),
    decreases k,
{
    if k > 0 {
        lemma_run_slides_occupancy(c, d, k - 1);
        assert(in_bounds(traversal_position(d, k - 1)));
        lemma_do_slide_occupancy(run_slides(c, d, k - 1), traversal_position(d, k - 1), d);
    }
}

/// Preparation only rewrites tile metadata, so it keeps the occupied count.
proof fn lemma_prepare_occupancy(c: Seq<Cell>)
    ensures
        prepare_cells(c).len() == c.len(),
        occupied_count(prepare_cells(c)) == occupied_count(c),
{
    lemma_occupied_pointwise(prepare_cells(c), c);
}

/// A single move made with spawning disabled never raises the number of
/// occupied cells: `move_in` then yields exactly `moved_cells`.
pub proof fn lemma_move_never_adds_tiles(c: Seq<Cell>, d: Direction)
    requires
        c.len() == 16,
    ensures
        moved_cells(c, d).len() == 16,
        occupied_count(moved_cells(c, d)) <= occupied_count(c),
{
    lemma_prepare_occupancy(c);
    lemma_run_slides_occupancy(prepare_cells(c), d, 16);
}

/// The cells of a board after a whole sequence of moves made with spawning
/// disabled, first direction first.
pub open spec fn cells_after_moves(c: Seq<Cell>, ds: Seq<Direction>) -> Seq<Cell>
    decreases ds.len(),
{
    if ds.len() == 0 {
        c
    } else {
        cells_after_moves(moved_cells(c, ds[0]), ds.drop_first())
    }
}

/// Once spawning is disabled, no sequence of moves raises the number of
/// occupied cells above its value at the time of the call: each move only
/// slides and merges, and sliding and merging never add a tile.
pub proof fn lemma_no_spawn_occupancy_monotone(c: Seq<Cell>, ds: Seq<Direction>)
    requires
        c.len() == 16,
    ensures
        cells_after_moves(c, ds).len() == 16,
        occupied_count(cells_after_moves(c, ds)) <= occupied_count(c),
    decreases ds.len(),
{
    if ds.len() > 0 {
        lemma_move_never_adds_tiles(c, ds[0]);
        lemma_no_spawn_occupancy_monotone(moved_cells(c, ds[0]), ds.drop_first());
    }
}

/// A tile absorbs at most one other tile per move: a slide only ever
/// merges into a cell whose tile has not itself merged during this move,
/// and the merged tile comes to rest on that very cell — `slide_dest`
/// never carries it past the merge.
pub proof fn lemma_absorb_at_most_once(c: Seq<Cell>, number: u64, pos: Position, d: Direction)
    requires
        c.len() == 16,
        in_bounds(pos),
        slide_dest(c, number, pos, d).1,
    ensures
        holds_absorbable(c, index_of(slide_dest(c, number, pos, d).0), number),
        slide_dest(c, number, pos, d).0 != pos,
{
    lemma_slide_dest(c, number, pos, d);
}

/// A tile already marked Merged never merges again in the same move: a
/// tile sliding toward an equal neighbour that has merged this move stops
/// in the cell just before it, without merging, and the traversal step
/// leaves the board — and so both tiles' numbers — unchanged.
pub proof fn lemma_merged_blocker_stops_slide(c: Seq<Cell>, pos: Position, d: Direction)
    requires
        c.len() == 16,
        in_bounds(pos),
        c[index_of(pos)] is Some,
        step_position(pos, d) is Some,
        c[index_of(step_position(pos, d)->Some_0)] matches Some(occ) && occ.number == c[index_of(
            pos,
        )]->Some_0.number && occ.state == TileState::Merged,
    ensures
        slide_dest(c, c[index_of(pos)]->Some_0.number, pos, d) == (pos, false),
        do_slide(c, pos, d) == c,
{
}

/// The traversal for Down starts at row 3 and ends at row 0, with rows
/// never rising again; Right runs each row's columns from 3 down to 0; Up
/// visits rows in ascending order and Left visits cells in plain row-major
/// order, both starting at (0, 0).
pub proof fn lemma_traversal_orientation()
    ensures
        traversal_position(Direction::Down, 0).i == 3,
        traversal_position(Direction::Down, 15).i == 0,
        traversal_position(Direction::Right, 0).j == 3,
        traversal_position(Direction::Right, 15).j == 0,
        forall|k: int| 0 <= k < 16 ==> #[trigger] traversal_position(Direction::Up, k)
            == position_of(k),
        forall|k: int| 0 <= k < 16 ==> #[trigger] traversal_position(Direction::Left, k)
            == position_of(k),
        forall|k1: int, k2: int|
            0 <= k1 <= k2 < 16 ==> #[trigger] traversal_position(Direction::Down, k1).i
                >= #[trigger] traversal_position(Direction::Down, k2).i,
        forall|k1: int, k2: int|
            0 <= k1 <= k2 < 16 && k1 / 4 == k2 / 4 ==> #[trigger] traversal_position(
                Direction::Right,
                k1,
            ).j >= #[trigger] traversal_position(Direction::Right, k2).j,
{
}

/// Rendering a board that holds no Merged tile yields exactly one entry
/// per occupied cell and no synthetic ghosts: entry `n` carries the
/// position and the very tile of the `n`-th occupied cell, in cell order.
proof fn lemma_render_prefix(c: Seq<Cell>, k: int)
    requires
        c.len() == 16,
        0 <= k <= 16,
        forall|m: int|
            0 <= m < 16 ==> (#[trigger] c[m] matches Some(t) ==> t.state != TileState::Merged),
    ensures
        render_cells(c, k).len() == occupied_count(c.subrange(0, k)),
        forall|n: int|
            0 <= n < render_cells(c, k).len() ==> {
                let e = #[trigger] render_cells(c, k)[n];
                in_bounds(e.0) && index_of(e.0) < k && c[index_of(e.0)] == Some(e.1)
            },
        forall|n1: int, n2: int|
            0 <= n1 < n2 < render_cells(c, k).len() ==> index_of(
                #[trigger] render_cells(c, k)[n1].0,
            ) < index_of(#[trigger] render_cells(c, k)[n2].0),
    decreases k,
{
    if k > 0 {
        lemma_render_prefix(c, k - 1);
        assert(c.subrange(0, k).drop_last() =~= c.subrange(0, k - 1));
        assert(c.subrange(0, k).last() == c[k - 1]);
        match c[k - 1] {
            None => {},
            Some(t) => {
                assert(in_bounds(position_of(k - 1)));
                assert(index_of(position_of(k - 1)) == k - 1);
            },
        }
    }
}

/// A run of traversal steps whose source cells are all empty changes
/// nothing.
proof fn lemma_run_slides_noop_range(c: Seq<Cell>, d: Direction, b: Seq<Cell>, k0: int, k1: int)
    requires
        0 <= k0 <= k1 <= 16,
        b.len() == 16,
        run_slides(c, d, k0) == b,
        forall|k: int| k0 <= k < k1 ==> b[index_of(#[trigger] traversal_position(d, k))] is None,
    ensures
        run_slides(c, d, k1) == b,
    decreases k1 - k0,
{
    if k1 > k0 {
        lemma_run_slides_noop_range(c, d, b, k0, k1 - 1);
        assert(b[index_of(traversal_position(d, k1 - 1))] is None);
    }
}

/// Once some traversal step has moved a tile, longer traversals report a
/// move too.
proof fn lemma_any_moved_monotone(c: Seq<Cell>, d: Direction, k0: int, k1: int)
    requires
        0 <= k0 <= k1,
        any_slide_moved(c, d, k0),
    ensures
        any_slide_moved(c, d, k1),
    decreases k1 - k0,
{
    if k1 > k0 {
        lemma_any_moved_monotone(c, d, k0, k1 - 1);
    }
}

/// A board with a single occupied cell holds one tile.
proof fn lemma_occupied_single(c: Seq<Cell>, w: int)
    requires
        0 <= w < c.len(),
        c[w] is Some,
        forall|m: int| 0 <= m < c.len() && m != w ==> c[m] is None,
    ensures
        occupied_count(c) == 1,
{
    lemma_occupied_update(c, w, None);
    assert forall|m: int| 0 <= m < c.len() implies c.update(w, None)[m] is None by {}
    crate::grid::lemma_occupied_all_none(c.update(w, None));
}

/// An in-bounds position is recovered from its slot id.
proof fn lemma_position_inverse(p: Position)
    requires
        in_bounds(p),
    ensures
        position_of(index_of(p)) == p,
{
    assert(index_of(p) / 4 == p.i && index_of(p) % 4 == p.j) by (nonlinear_arith)
        requires
            p.i < 4,
            p.j < 4,
    ;
}

/// Whether two positions lie in one line of the board along `d`: one
/// column for a vertical direction, one row for a horizontal one.
pub open spec fn same_line(a: Position, b: Position, d: Direction) -> bool {
    match d {
        Direction::Up => a.j == b.j,
        Direction::Down => a.j == b.j,
        Direction::Left => a.i == b.i,
        Direction::Right => a.i == b.i,
    }
}

/// The cell of `p`'s line that lies on the board edge in direction `d`:
/// where an unobstructed tile at `p` comes to rest.
pub open spec fn edge_cell(p: Position, d: Direction) -> Position {
    match d {
        Direction::Up => Position { i: 0, j: p.j },
        Direction::Down => Position { i: 3, j: p.j },
        Direction::Left => Position { i: p.i, j: 0 },
        Direction::Right => Position { i: p.i, j: 3 },
    }
}

/// The traversal step at which a move in `d` processes the cell at `p`.
pub open spec fn traversal_index(p: Position, d: Direction) -> int {
    match d {
        Direction::Up => p.i * 4 + p.j,
        Direction::Left => p.i * 4 + p.j,
        Direction::Down => (3 - p.i as int) * 4 + p.j,
        Direction::Right => p.i * 4 + (3 - p.j as int),
    }
}

/// `traversal_index` inverts `traversal_position`: the traversal visits
/// every cell exactly once.
proof fn lemma_traversal_round_trip(d: Direction, k: int)
    requires
        0 <= k < 16,
    ensures
        in_bounds(traversal_position(d, k)),
        traversal_index(traversal_position(d, k), d) == k,
{
    assert(0 <= k / 4 < 4 && 0 <= k % 4 < 4 && (k / 4) * 4 + k % 4 == k) by (nonlinear_arith)
        requires
            0 <= k < 16,
    ;
}

/// The traversal step of an in-bounds position lies in [0, 16) and leads
/// back to that position.
proof fn lemma_traversal_index_inverse(p: Position, d: Direction)
    requires
        in_bounds(p),
    ensures
        0 <= traversal_index(p, d) < 16,
        traversal_position(d, traversal_index(p, d)) == p,
{
    let k = traversal_index(p, d);
    match d {
        Direction::Up => {
            lemma_position_inverse(p);
        },
        Direction::Left => {
            lemma_position_inverse(p);
        },
        Direction::Down => {
            assert(k / 4 == 3 - p.i && k % 4 == p.j) by (nonlinear_arith)
                requires
                    p.i < 4,
                    p.j < 4,
                    k == (3 - p.i as int) * 4 + p.j,
            ;
        },
        Direction::Right => {
            assert(k / 4 == p.i && k % 4 == 3 - p.j) by (nonlinear_arith)
                requires
                    p.i < 4,
                    p.j < 4,
                    k == p.i * 4 + (3 - p.j as int),
            ;
        },
    }
}

/// A tile with nothing but empty cells ahead of it slides to the edge of
/// its line, without merging.
proof fn lemma_slide_to_edge(c: Seq<Cell>, n: u64, pos: Position, d: Direction)
    requires
        c.len() == 16,
        in_bounds(pos),
        forall|m: int|
            0 <= m < 16 && same_line(#[trigger] position_of(m), pos, d) && edge_distance(
                position_of(m),
                d,
            ) < edge_distance(pos, d) ==> c[m] is None,
    ensures
        slide_dest(c, n, pos, d) == (edge_cell(pos, d), false),
    decreases edge_distance(pos, d),
{
    match step_position(pos, d) {
        None => {
            assert(pos == edge_cell(pos, d));
        },
        Some(next) => {
            assert(in_bounds(next) && same_line(next, pos, d));
            lemma_position_inverse(next);
            assert(c[index_of(next)] is None);
            lemma_slide_to_edge(c, n, next, d);
            assert(edge_cell(next, d) == edge_cell(pos, d));
        },
    }
}

/// A tile whose line is empty strictly between it and an equal,
/// not-yet-merged tile nearer the edge slides onto that tile and merges.
proof fn lemma_slide_to_absorb(c: Seq<Cell>, n: u64, pos: Position, tgt: Position, d: Direction)
    requires
        c.len() == 16,
        in_bounds(pos),
        in_bounds(tgt),
        same_line(tgt, pos, d),
        edge_distance(tgt, d) < edge_distance(pos, d),
        forall|m: int|
            0 <= m < 16 && same_line(#[trigger] position_of(m), pos, d) && edge_distance(
                tgt,
                d,
            ) < edge_distance(position_of(m), d) < edge_distance(pos, d) ==> c[m] is None,
        holds_absorbable(c, index_of(tgt), n),
    ensures
        slide_dest(c, n, pos, d) == (tgt, true),
    decreases edge_distance(pos, d),
{
    let next = step_position(pos, d)->Some_0;
    assert(step_position(pos, d) is Some);
    assert(in_bounds(next) && same_line(next, pos, d));
    assert(edge_distance(next, d) == edge_distance(pos, d) - 1);
    if edge_distance(next, d) == edge_distance(tgt, d) {
        assert(next == tgt);
    } else {
        lemma_position_inverse(next);
        assert(c[index_of(next)] is None);
        lemma_slide_to_absorb(c, n, next, tgt, d);
    }
}

/// Two adjacent equal tiles aligned with `d`, alone on the board, merge
/// under a move in `d` into one tile of doubled number, tagged Merged and
/// remembering the rear tile's cell, resting on the edge cell of their
/// line; the move reports a change (so, by `move_in`'s contract, exactly
/// one tile then spawns when spawning is enabled and an empty cell
/// remains), and every other cell comes out empty.
#[verifier::rlimit(100)]
pub proof fn lemma_adjacent_pair_merges(c: Seq<Cell>, p: Position, d: Direction, n: u64)
    requires
        c.len() == 16,
        in_bounds(p),
        step_position(p, d) is Some,
        c[index_of(p)] matches Some(t) && t.number == n,
        c[index_of(step_position(p, d)->Some_0)] matches Some(t) && t.number == n,
        forall|m: int|
            0 <= m < 16 && m != index_of(p) && m != index_of(step_position(p, d)->Some_0)
                ==> c[m] is None,
    ensures
        move_changes(c, d),
        occupied_count(moved_cells(c, d)) == 1,
        moved_cells(c, d)[index_of(edge_cell(p, d))] == Some(
            Tile {
                number: (2 * n) as u64,
                state: TileState::Merged,
                previous_position: Some(p),
            },
        ),
        forall|m: int|
            0 <= m < 16 && m != index_of(edge_cell(p, d)) ==> moved_cells(c, d)[m] is None,
{
    let q = step_position(p, d)->Some_0;
    let e = edge_cell(p, d);
    assert(in_bounds(q) && same_line(q, p, d));
    assert(edge_distance(q, d) == edge_distance(p, d) - 1);
    assert(in_bounds(e) && same_line(e, p, d) && edge_distance(e, d) == 0);
    let tp = traversal_index(p, d);
    let tq = traversal_index(q, d);
    let te = traversal_index(e, d);
    lemma_traversal_index_inverse(p, d);
    lemma_traversal_index_inverse(q, d);
    lemma_traversal_index_inverse(e, d);
    lemma_position_inverse(p);
    lemma_position_inverse(q);
    lemma_position_inverse(e);
    assert(te <= tq && tq < tp);
    if index_of(q) == index_of(p) {
        lemma_index_injective(q, p);
    }
    if index_of(e) == index_of(p) {
        lemma_index_injective(e, p);
    }
    let pre = prepare_cells(c);
    // Every traversal step before q's finds a cell that holds no tile.
    assert forall|k: int| 0 <= k < tq implies pre[index_of(
        #[trigger] traversal_position(d, k),
    )] is None by {
        let r = traversal_position(d, k);
        lemma_traversal_round_trip(d, k);
        if index_of(r) == index_of(p) {
            lemma_index_injective(r, p);
        }
        if index_of(r) == index_of(q) {
            lemma_index_injective(r, q);
        }
        assert(c[index_of(r)] is None);
    }
    lemma_run_slides_noop_range(pre, d, pre, 0, tq);
    // q's turn: its line is empty ahead of it, so it slides to the edge
    // (or already stands there).
    let tile_q = pre[index_of(q)]->Some_0;
    assert(tile_q.number == n && tile_q.state == TileState::Static);
    assert forall|m: int|
        0 <= m < 16 && same_line(#[trigger] position_of(m), q, d) && edge_distance(
            position_of(m),
            d,
        ) < edge_distance(q, d) implies pre[m] is None by {
        let r = position_of(m);
        if m == index_of(p) {
            assert(r == p);
        }
        if m == index_of(q) {
            assert(r == q);
        }
        assert(c[m] is None);
    }
    let b1 = if edge_distance(q, d) == 0 {
        pre
    } else {
        pre.update(index_of(q), None).update(index_of(e), Some(tile_q))
    };
    if edge_distance(q, d) == 0 {
        assert(q == e);
        assert(step_position(q, d) is None);
        assert(slide_dest(pre, n, q, d) == (q, false));
        assert(run_slides(pre, d, tq + 1) == b1);
    } else {
        lemma_slide_to_edge(pre, n, q, d);
        assert(edge_cell(q, d) == e);
        assert(q != e);
        if index_of(q) == index_of(e) {
            lemma_index_injective(q, e);
        }
        assert(run_slides(pre, d, tq + 1) == do_slide(pre, q, d));
        assert(do_slide(pre, q, d) == b1);
    }
    assert(holds_absorbable(b1, index_of(e), n));
    // Every turn strictly between q's and p's finds a cell that holds no
    // tile: the parked tile sits on the edge cell, whose turn came first.
    assert forall|k: int| tq + 1 <= k < tp implies b1[index_of(
        #[trigger] traversal_position(d, k),
    )] is None by {
        let r = traversal_position(d, k);
        lemma_traversal_round_trip(d, k);
        if index_of(r) == index_of(p) {
            lemma_index_injective(r, p);
        }
        if index_of(r) == index_of(q) {
            lemma_index_injective(r, q);
        }
        if index_of(r) == index_of(e) {
            lemma_index_injective(r, e);
        }
        assert(c[index_of(r)] is None);
    }
    lemma_run_slides_noop_range(pre, d, b1, tq + 1, tp);
    // p's turn: the line up to the parked tile is empty, and that tile is
    // equal and not merged, so p's tile slides onto it and merges.
    let tile_p = pre[index_of(p)]->Some_0;
    assert(tile_p.number == n && tile_p.previous_position == Some(p));
    assert(b1[index_of(p)] == Some(tile_p));
    assert forall|m: int|
        0 <= m < 16 && same_line(#[trigger] position_of(m), p, d) && edge_distance(
            e,
            d,
        ) < edge_distance(position_of(m), d) < edge_distance(p, d) implies b1[m] is None by {
        let r = position_of(m);
        if m == index_of(q) {
            assert(r == q);
            assert(b1[m] is None);
        } else {
            if m == index_of(p) {
                assert(r == p);
            }
            if m == index_of(e) {
                assert(r == e);
            }
            assert(c[m] is None);
        }
    }
    lemma_slide_to_absorb(b1, n, p, e, d);
    let merged_tile = Tile {
        number: (2 * n) as u64,
        state: TileState::Merged,
        previous_position: Some(p),
    };
    let b2 = b1.update(index_of(p), None).update(index_of(e), Some(merged_tile));
    assert(run_slides(pre, d, tp + 1) == do_slide(b1, p, d));
    assert(do_slide(b1, p, d) == b2);
    // Every later turn finds its cell empty: only the edge cell is
    // occupied now, and its turn came first.
    assert forall|m: int| 0 <= m < 16 && m != index_of(e) implies b2[m] is None by {
        if m != index_of(p) && m != index_of(q) {
            assert(c[m] is None);
        }
    }
    assert forall|k: int| tp + 1 <= k < 16 implies b2[index_of(
        #[trigger] traversal_position(d, k),
    )] is None by {
        let r = traversal_position(d, k);
        lemma_traversal_round_trip(d, k);
        if index_of(r) == index_of(e) {
            lemma_index_injective(r, e);
        }
    }
    lemma_run_slides_noop_range(pre, d, b2, tp + 1, 16);
    // p's turn moved a tile, so the move reports a change.
    assert(slide_moves(b1, p, d));
    assert(any_slide_moved(pre, d, tp + 1));
    lemma_any_moved_monotone(pre, d, tp + 1, 16);
    lemma_occupied_single(b2, index_of(e));
}

/// The render projection of a board with no Merged tile is exactly one
/// entry per occupied cell — no ghosts — in cell order, each entry
/// carrying its cell's position and tile.
pub proof fn lemma_render_no_ghosts(c: Seq<Cell>)
    requires
        c.len() == 16,
        forall|m: int|
            0 <= m < 16 ==> (#[trigger] c[m] matches Some(t) ==> t.state != TileState::Merged),
    ensures
        render_cells(c, 16).len() == occupied_count(c),
        forall|n: int|
            0 <= n < render_cells(c, 16).len() ==> {
                let e = #[trigger] render_cells(c, 16)[n];
                in_bounds(e.0) && c[index_of(e.0)] == Some(e.1)
            },
        forall|n1: int, n2: int|
            0 <= n1 < n2 < render_cells(c, 16).len() ==> index_of(
                #[trigger] render_cells(c, 16)[n1].0,
            ) < index_of(#[trigger] render_cells(c, 16)[n2].0),
{
    lemma_render_prefix(c, 16);
    assert(c.subrange(0, 16) =~= c);
}

} // verus!
