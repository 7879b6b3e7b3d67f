use vstd::prelude::*;

use crate::rng::{fresh_rng, rng_below, seeded_rng};
use crate::tile::{Tile, TileState};

verus! {

/// The largest tile number a move accepts: one more doubling still fits in
/// a `u64`.
pub const SLIDE_MAX: u64 = 0x4000_0000_0000_0000;

/// The largest number a tile can carry right after a merge.
pub const MERGED_MAX: u64 = 0x8000_0000_0000_0000;

/// One of the four directions a move can slide the tiles in.
#[derive(Debug, Clone, Copy, PartialEq, Eq, Structural)]
pub enum Direction {
    Up,
    Down,
    Right,
    Left,
}

/// The unit offset, as (row delta, column delta), of each direction.
pub open spec fn direction_offset(d: Direction) -> (int, int) {
    match d {
        Direction::Down => (1int, 0int),
        Direction::Up => (-1int, 0int),
        Direction::Right => (0int, 1int),
        Direction::Left => (0int, -1int),
    }
}

/// The direction a raw displacement (dx, dy) is classified as: horizontal
/// when |dx| exceeds |dy| (Right for positive dx, else Left), otherwise
/// vertical (Down for positive dy, else Up); ties fall to the vertical
/// branch.
pub open spec fn direction_of_displacement(dx: int, dy: int) -> Direction {
    if vstd::math::abs(dx) > vstd::math::abs(dy) {
        if dx > 0 {
            Direction::Right
        } else {
            Direction::Left
        }
    } else {
        if dy > 0 {
            Direction::Down
        } else {
            Direction::Up
        }
    }
}

/// The k-th cell visited when sliding in direction `d`: rows run 3 down to
/// 0 for Down and 0 up to 3 otherwise (outer), columns run 3 down to 0 for
/// Right and 0 up to 3 otherwise (inner).
pub open spec fn traversal_position(d: Direction, k: int) -> Position {
    Position {
        i: (if d == Direction::Down {
            3 - k / 4
        } else {
            k / 4
        }) as usize,
        j: (if d == Direction::Right {
            3 - k % 4
        } else {
            k % 4
        }) as usize,
    }
}

impl Direction {
    /// The unit offset of this direction, as an executable pair.
    pub fn as_pair(self) -> (r: (i32, i32))
        ensures
            (r.0 as int, r.1 as int) == direction_offset(self),
    {
        match self {
            Direction::Down => (1, 0),
            Direction::Up => (-1, 0),
            Direction::Right => (0, 1),
            Direction::Left => (0, -1),
        }
    }

    /// Classifies a raw displacement, such as a swipe vector, as a
    /// direction.
    pub fn from_displacement(dx: i32, dy: i32) -> (r: Direction)
        ensures
            r == direction_of_displacement(dx as int, dy as int),
    {
        let ax: i64 = if dx >= 0 {
            dx as i64
        } else {
            -(dx as i64)
        };
        let ay: i64 = if dy >= 0 {
            dy as i64
        } else {
            -(dy as i64)
        };
        if ax > ay {
            if dx > 0 {
                Direction::Right
            } else {
                Direction::Left
            }
        } else {
            if dy > 0 {
                Direction::Down
            } else {
                Direction::Up
            }
        }
    }

    /// The order in which source cells are visited during a move in this
    /// direction: the edge the tiles slide toward comes first, so a tile
    /// already pushed to the edge is never revisited.
    pub fn build_traversal(self) -> (r: Vec<Position>)
        ensures
            r@.len() == 16,
            forall|k: int| 0 <= k < 16 ==> r@[k] == traversal_position(self, k),
    {
        let mut r: Vec<Position> = Vec::new();
        let mut a: usize = 0;
        while a < 4
            invariant
                a <= 4,
                r@.len() == 4 * a,
                forall|k: int| 0 <= k < r@.len() ==> r@[k] == traversal_position(self, k),
            decreases 4 - a,
        {
            let mut b: usize = 0;
            while b < 4
                invariant
                    a < 4,
                    b <= 4,
                    r@.len() == 4 * a + b,
                    forall|k: int| 0 <= k < r@.len() ==> r@[k] == traversal_position(self, k),
                decreases 4 - b,
            {
                let i: usize = if matches!(self, Direction::Down) {
                    3 - a
                } else {
                    a
                };
                let j: usize = if matches!(self, Direction::Right) {
                    3 - b
                } else {
                    b
                };
                r.push(Position { i, j });
                proof {
                    let k = 4 * a + b;
                    assert(k / 4 == a && k % 4 == b) by (nonlinear_arith)
                        requires
                            a < 4,
                            b < 4,
                            k == 4 * a + b,
                    ;
                }
                b = b + 1;
            }
            a = a + 1;
        }
        r
    }
}

/// A board coordinate: row `i`, column `j`. The board's rows and columns
/// run over [0, 4); a position outside that range is "out of bounds".
#[derive(Debug, Clone, Copy, PartialEq, Eq, Structural)]
pub struct Position {
    pub i: usize,
    pub j: usize,
}

/// Whether a position names one of the 16 cells.
pub open spec fn in_bounds(p: Position) -> bool {
    p.i < 4 && p.j < 4
}

/// The linear slot id of a position, row-major.
pub open spec fn index_of(p: Position) -> int {
    p.i * 4 + p.j
}

/// The position of the linear slot id `x`.
pub open spec fn position_of(x: int) -> Position {
    Position { i: (x / 4) as usize, j: (x % 4) as usize }
}

/// The neighbouring position one step in direction `d`, or None when that
/// step leaves the board.
pub open spec fn step_position(p: Position, d: Direction) -> Option<Position> {
    match d {
        Direction::Up => if p.i == 0 {
            None
        } else {
            Some(Position { i: (p.i - 1) as usize, j: p.j })
        },
        Direction::Down => if p.i >= 3 {
            None
        } else {
            Some(Position { i: (p.i + 1) as usize, j: p.j })
        },
        Direction::Left => if p.j == 0 {
            None
        } else {
            Some(Position { i: p.i, j: (p.j - 1) as usize })
        },
        Direction::Right => if p.j >= 3 {
            None
        } else {
            Some(Position { i: p.i, j: (p.j + 1) as usize })
        },
    }
}

/// How many cells lie between `p` and the board edge in direction `d`.
pub open spec fn edge_distance(p: Position, d: Direction) -> int {
    match d {
        Direction::Up => p.i as int,
        Direction::Down => 3 - p.i as int,
        Direction::Left => p.j as int,
        Direction::Right => 3 - p.j as int,
    }
}

impl Position {
    pub fn new(x: usize, y: usize) -> (r: Position)
        ensures
            r == (Position { i: x, j: y }),
    {
        Position { i: x, j: y }
    }

    /// The position of the linear slot id `index`.
    pub fn from_index(index: usize) -> (r: Position)
        ensures
            r.i == index / 4,
            r.j == index % 4,
            index < 16 ==> r == position_of(index as int) && in_bounds(r),
    {
        Position { i: index / 4, j: index % 4 }
    }

    /// The linear slot id of an in-bounds position.
    pub fn index(self) -> (r: usize)
        requires
            in_bounds(self),
        ensures
            r == index_of(self),
            r < 16,
    {
        self.i * 4 + self.j
    }

    pub fn is_out_of_bounds(self) -> (r: bool)
        ensures
            r == !in_bounds(self),
    {
        self.i >= 4 || self.j >= 4
    }

    /// Steps one cell in `d`, or reports that the step leaves the board.
    pub fn step(self, d: Direction) -> (r: Option<Position>)
        requires
            in_bounds(self),
        ensures
            r == step_position(self, d),
    {
        match d {
            Direction::Up => if self.i == 0 {
                None
            } else {
                Some(Position { i: self.i - 1, j: self.j })
            },
            Direction::Down => if self.i >= 3 {
                None
            } else {
                Some(Position { i: self.i + 1, j: self.j })
            },
            Direction::Left => if self.j == 0 {
                None
            } else {
                Some(Position { i: self.i, j: self.j - 1 })
            },
            Direction::Right => if self.j >= 3 {
                None
            } else {
                Some(Position { i: self.i, j: self.j + 1 })
            },
        }
    }
}

/// Two in-bounds positions with one slot id are the same position.
pub proof fn lemma_index_injective(p: Position, q: Position)
    requires
        in_bounds(p),
        in_bounds(q),
        index_of(p) == index_of(q),
    ensures
        p == q,
{
}

/// One cell of the board: empty, or holding a single tile.
pub type Cell = Option<Tile>;

/// `n` is a tile number: a power of two, at least 2.
pub open spec fn is_tile_number(n: nat) -> bool
    decreases n,
{
    if n < 2 {
        false
    } else if n == 2 {
        true
    } else {
        n % 2 == 0 && is_tile_number(n / 2)
    }
}

/// Doubling a tile number yields a tile number.
pub proof fn lemma_tile_number_double(n: nat)
    requires
        is_tile_number(n),
    ensures
        is_tile_number(2 * n),
{
    assert(2 * n / 2 == n);
}

/// Every tile of the board carries a tile number.
pub open spec fn numbers_valid(c: Seq<Cell>) -> bool {
    forall|k: int|
        0 <= k < c.len() ==> (#[trigger] c[k] matches Some(t) ==> is_tile_number(t.number as nat))
}

/// Every tile is small enough that one merge still fits its number in a
/// `u64`: the machine-width precondition of a move.
pub open spec fn numbers_fit(c: Seq<Cell>) -> bool {
    forall|k: int| 0 <= k < c.len() ==> (#[trigger] c[k] matches Some(t) ==> t.number <= SLIDE_MAX)
}

/// What holds of the cells while a move's traversal runs: tile numbers stay
/// valid, a tile grown by a merge may have doubled up to `MERGED_MAX`, and
/// any tile that has not merged is still small enough to double.
pub open spec fn mid_numbers_ok(c: Seq<Cell>) -> bool {
    forall|k: int|
        0 <= k < c.len() ==> (#[trigger] c[k] matches Some(t) ==> {
            &&& is_tile_number(t.number as nat)
            &&& t.number <= MERGED_MAX
            &&& t.state != TileState::Merged ==> t.number <= SLIDE_MAX
        })
}

/// The board after the preparation step of a move: every tile is tagged
/// Static and remembers its own cell as its previous position.
pub open spec fn prepare_cells(c: Seq<Cell>) -> Seq<Cell> {
    Seq::new(
        c.len(),
        |k: int|
            match c[k] {
                None => None,
                Some(t) => Some(
                    Tile {
                        number: t.number,
                        state: TileState::Static,
                        previous_position: Some(position_of(k)),
                    },
                ),
            },
    )
}

/// Where the tile at `pos` carrying `number` comes to rest when slid in
/// `d`, and whether it merged there: empty cells are crossed; a
/// neighbouring tile of the same number that has not itself merged this
/// move absorbs the slid tile, which stops on that cell; any other tile, or
/// the board edge, stops it one cell short.
pub open spec fn slide_dest(c: Seq<Cell>, number: u64, pos: Position, d: Direction) -> (
    Position,
    bool,
)
    decreases edge_distance(pos, d),
{
    match step_position(pos, d) {
        None => (pos, false),
        Some(next) => match c[index_of(next)] {
            Some(occ) => if occ.number == number && occ.state != TileState::Merged {
                (next, true)
            } else {
                (pos, false)
            },
            None => slide_dest(c, number, next, d),
        },
    }
}

/// One traversal step of a move: the tile at `start` (if any) slides in
/// `d`; when it comes to rest elsewhere, the source cell empties and the
/// resting cell takes the tile — doubled and tagged Merged when it absorbed
/// the tile that stood there.
pub open spec fn do_slide(c: Seq<Cell>, start: Position, d: Direction) -> Seq<Cell> {
    match c[index_of(start)] {
        None => c,
        Some(t) => {
            let (dest, merged) = slide_dest(c, t.number, start, d);
            if dest == start {
                c
            } else {
                let moved_tile = if merged {
                    Tile {
                        number: (2 * t.number) as u64,
                        state: TileState::Merged,
                        previous_position: t.previous_position,
                    }
                } else {
                    t
                };
                c.update(index_of(start), None).update(index_of(dest), Some(moved_tile))
            }
        },
    }
}

/// Whether the traversal step at `start` moves a tile.
pub open spec fn slide_moves(c: Seq<Cell>, start: Position, d: Direction) -> bool {
    c[index_of(start)] matches Some(t) && slide_dest(c, t.number, start, d).0 != start
}

/// The board after the first `k` traversal steps of a move in `d`.
pub open spec fn run_slides(c: Seq<Cell>, d: Direction, k: int) -> Seq<Cell>
    decreases k,
{
    if k <= 0 {
        c
    } else {
        do_slide(run_slides(c, d, k - 1), traversal_position(d, k - 1), d)
    }
}

/// Whether any of the first `k` traversal steps moves a tile.
pub open spec fn any_slide_moved(c: Seq<Cell>, d: Direction, k: int) -> bool
    decreases k,
{
    if k <= 0 {
        false
    } else {
        any_slide_moved(c, d, k - 1) || slide_moves(
            run_slides(c, d, k - 1),
            traversal_position(d, k - 1),
            d,
        )
    }
}

/// The cells of a board after a full move in `d`, before any spawn.
pub open spec fn moved_cells(c: Seq<Cell>, d: Direction) -> Seq<Cell> {
    run_slides(prepare_cells(c), d, 16)
}

/// Whether a move in `d` slides any tile.
pub open spec fn move_changes(c: Seq<Cell>, d: Direction) -> bool {
    any_slide_moved(prepare_cells(c), d, 16)
}

/// Whether some cell of the board is empty.
pub open spec fn has_empty(c: Seq<Cell>) -> bool {
    exists|k: int| 0 <= k < c.len() && c[k] is None
}

/// A tile as a spawn places it: the given number, tagged New, no history.
pub open spec fn spawn_tile(n: u64) -> Tile {
    Tile { number: n, state: TileState::New, previous_position: None }
}

/// `after` is `before` with one new tile, numbered 2 or 4 and tagged New,
/// placed in a cell that was empty.
pub open spec fn spawned(before: Seq<Cell>, after: Seq<Cell>) -> bool {
    exists|k: int|
        0 <= k < before.len() && before[k] is None && (after == before.update(
            k,
            Some(spawn_tile(2)),
        ) || after == before.update(k, Some(spawn_tile(4))))
}

/// The cell a spawn filled, for boards related by `spawned`.
pub open spec fn spawn_witness(before: Seq<Cell>, after: Seq<Cell>) -> int {
    choose|k: int|
        0 <= k < before.len() && before[k] is None && (after == before.update(
            k,
            Some(spawn_tile(2)),
        ) || after == before.update(k, Some(spawn_tile(4))))
}

/// The witness of a spawn names an empty cell that the spawn filled with a
/// new tile numbered 2 or 4, all other cells unchanged.
pub proof fn spawned_properties(before: Seq<Cell>, after: Seq<Cell>)
    requires
        spawned(before, after),
    ensures
        0 <= spawn_witness(before, after) < before.len(),
        before[spawn_witness(before, after)] is None,
        after == before.update(spawn_witness(before, after), Some(spawn_tile(2))) || after
            == before.update(spawn_witness(before, after), Some(spawn_tile(4))),
{
}

/// How many cells of the board hold a tile.
pub open spec fn occupied_count(c: Seq<Cell>) -> nat
    decreases c.len(),
{
    if c.len() == 0 {
        0
    } else {
        occupied_count(c.drop_last()) + (if c.last() is Some {
            1nat
        } else {
            0nat
        })
    }
}

/// Updating one cell changes the occupied count exactly by the difference
/// between the new and the old occupancy of that cell.
pub proof fn lemma_occupied_update(c: Seq<Cell>, k: int, v: Cell)
    requires
        0 <= k < c.len(),
    ensures
        occupied_count(c.update(k, v)) == occupied_count(c) - (if c[k] is Some {
            1int
        } else {
            0int
        }) + (if v is Some {
            1int
        } else {
            0int
        }),
    decreases c.len(),
{
    if k == c.len() - 1 {
        assert(c.update(k, v).drop_last() =~= c.drop_last());
    } else {
        lemma_occupied_update(c.drop_last(), k, v);
        assert(c.update(k, v).drop_last() =~= c.drop_last().update(k, v));
    }
}

/// A board of empty cells holds no tile.
pub proof fn lemma_occupied_all_none(c: Seq<Cell>)
    requires
        forall|k: int| 0 <= k < c.len() ==> c[k] is None,
    ensures
        occupied_count(c) == 0,
    decreases c.len(),
{
    if c.len() > 0 {
        lemma_occupied_all_none(c.drop_last());
    }
}

/// Boards whose cells are occupied alike hold equally many tiles.
pub proof fn lemma_occupied_pointwise(a: Seq<Cell>, b: Seq<Cell>)
    requires
        a.len() == b.len(),
        forall|k: int| 0 <= k < a.len() ==> (a[k] is Some <==> b[k] is Some),
    ensures
        occupied_count(a) == occupied_count(b),
    decreases a.len(),
{
    if a.len() > 0 {
        lemma_occupied_pointwise(a.drop_last(), b.drop_last());
    }
}

/// The cell at slot `idx` holds a tile of number `number` that has not
/// itself merged this move.
pub open spec fn holds_absorbable(c: Seq<Cell>, idx: int, number: u64) -> bool {
    match c[idx] {
        None => false,
        Some(occ) => occ.number == number && occ.state != TileState::Merged,
    }
}

/// What the resting place of a slide looks like: it is in bounds; a merged
/// slide rests on a cell away from its start that held an equal tile not
/// itself merged this move; a slide that moved without merging rests on a
/// cell that was empty.
pub proof fn lemma_slide_dest(c: Seq<Cell>, number: u64, pos: Position, d: Direction)
    requires
        c.len() == 16,
        in_bounds(pos),
    ensures
        in_bounds(slide_dest(c, number, pos, d).0),
        edge_distance(slide_dest(c, number, pos, d).0, d) <= edge_distance(pos, d),
        slide_dest(c, number, pos, d).1 ==> edge_distance(slide_dest(c, number, pos, d).0, d)
            < edge_distance(pos, d),
        slide_dest(c, number, pos, d).1 ==> slide_dest(c, number, pos, d).0 != pos
            && holds_absorbable(c, index_of(slide_dest(c, number, pos, d).0), number),
        !slide_dest(c, number, pos, d).1 && slide_dest(c, number, pos, d).0 != pos ==> c[index_of(
            slide_dest(c, number, pos, d).0,
        )] is None,
    decreases edge_distance(pos, d),
{
    match step_position(pos, d) {
        None => {},
        Some(next) => {
            assert(in_bounds(next));
            match c[index_of(next)] {
                Some(occ) => {},
                None => {
                    lemma_slide_dest(c, number, next, d);
                },
            }
        },
    }
}

/// What the cell at slot `k` contributes to the render projection: its
/// tile, preceded by nothing; a Merged tile also contributes a synthetic
/// "ghost" entry at the same cell, carrying the pre-merge number and the
/// Static tag, so a renderer can animate the pre/post merge overlap.
pub open spec fn render_cell(k: int, t: Tile) -> Seq<(Position, Tile)> {
    if t.state == TileState::Merged {
        seq![
            (position_of(k), t),
            (
                position_of(k),
                Tile {
                    number: (t.number / 2) as u64,
                    state: TileState::Static,
                    previous_position: t.previous_position,
                },
            ),
        ]
    } else {
        seq![(position_of(k), t)]
    }
}

/// The render projection of the first `k` cells, in cell order.
pub open spec fn render_cells(c: Seq<Cell>, k: int) -> Seq<(Position, Tile)>
    decreases k,
{
    if k <= 0 {
        Seq::empty()
    } else {
        render_cells(c, k - 1) + (match c[k - 1] {
            None => Seq::empty(),
            Some(t) => render_cell(k - 1, t),
        })
    }
}

/// Two cells are alike when both are empty or both hold tiles of one
/// number; this is the cell-wise equality boards are compared by.
pub open spec fn cells_alike(a: Cell, b: Cell) -> bool {
    match (a, b) {
        (None, None) => true,
        (Some(x), Some(y)) => x.number == y.number,
        _ => false,
    }
}

/// The 4x4 board: 16 cells row-major, the board-owned random source used
/// for spawning, and the flag that gates spawning.
pub struct Grid {
    cells: Vec<Cell>,
    rng: rand::rngs::StdRng,
    enable_new_tiles: bool,
}

impl View for Grid {
    type V = Seq<Cell>;

    closed spec fn view(&self) -> Seq<Cell> {
        self.cells@
    }
}

impl Grid {
    /// Whether moves may still spawn new tiles.
    pub closed spec fn spawning_enabled(&self) -> bool {
        self.enable_new_tiles
    }

    /// A structurally sound board: 16 cells, every tile number a power of
    /// two.
    pub open spec fn wf(&self) -> bool {
        self@.len() == 16 && numbers_valid(self@)
    }

    /// A board over the given 16 cells, with spawning enabled and a random
    /// source seeded by the operating system.
    pub fn new(cells: Vec<Cell>) -> (g: Grid)
        requires
            cells@.len() == 16,
            numbers_valid(cells@),
        ensures
            g@ == cells@,
            g.wf(),
            g.spawning_enabled(),
    {
        Grid { cells, rng: fresh_rng(), enable_new_tiles: true }
    }

    /// As `new`, but with a deterministic random source grown from `seed`,
    /// so a board under test replays the same spawns.
    pub fn new_seeded(cells: Vec<Cell>, seed: u64) -> (g: Grid)
        requires
            cells@.len() == 16,
            numbers_valid(cells@),
        ensures
            g@ == cells@,
            g.wf(),
            g.spawning_enabled(),
    {
        Grid { cells, rng: seeded_rng(seed), enable_new_tiles: true }
    }

    /// The tile in the cell at `pos`, or None for an empty cell or an
    /// out-of-bounds position.
    pub fn get(&self, pos: Position) -> (r: Option<Tile>)
        requires
            self@.len() == 16,
        ensures
            r == (if in_bounds(pos) {
                self@[index_of(pos)]
            } else {
                None
            }),
    {
        if pos.is_out_of_bounds() {
            None
        } else {
            self.cells[pos.index()]
        }
    }

    /// The cell at an in-bounds position.
    fn cell_at(&self, p: Position) -> (r: Cell)
        requires
            self@.len() == 16,
            in_bounds(p),
        ensures
            r == self@[index_of(p)],
    {
        self.cells[p.index()]
    }

    /// Replaces the cell at an in-bounds position.
    fn set_cell(&mut self, p: Position, v: Cell)
        requires
            old(self)@.len() == 16,
            in_bounds(p),
        ensures
            final(self)@ == old(self)@.update(index_of(p), v),
            final(self).spawning_enabled() == old(self).spawning_enabled(),
    {
        let k = p.index();
        self.cells[k] = v;
    }

    /// Stops all future spawning: subsequent moves only slide and merge.
    pub fn disable_new_tiles(&mut self)
        ensures
            final(self)@ == old(self)@,
            !final(self).spawning_enabled(),
    {
        self.enable_new_tiles = false;
    }

    /// Whether the board was declared terminal, that is, spawning was
    /// disabled.
    pub fn is_end(&self) -> (r: bool)
        ensures
            r == !self.spawning_enabled(),
    {
        !self.enable_new_tiles
    }

    /// The preparation step of a move: every tile is tagged Static and
    /// records its own cell as its previous position, so each tile reports
    /// an accurate pre-move position before any sliding.
    fn prepare_for_move(&mut self)
        requires
            old(self)@.len() == 16,
        ensures
            final(self)@ == prepare_cells(old(self)@),
            final(self).spawning_enabled() == old(self).spawning_enabled(),
    {
        let ghost orig = self@;
        let ghost flag = self.spawning_enabled();
        let mut i: usize = 0;
        while i < 16
            invariant
                i <= 16,
                self@.len() == 16,
                orig.len() == 16,
                forall|m: int| 0 <= m < i ==> self@[m] == prepare_cells(orig)[m],
                forall|m: int| i <= m < 16 ==> self@[m] == orig[m],
                self.spawning_enabled() == flag,
            decreases 16 - i,
        {
            match self.cells[i] {
                None => {},
                Some(t) => {
                    let p = Position::from_index(i);
                    self.cells[i] = Some(
                        Tile {
                            number: t.number,
                            state: TileState::Static,
                            previous_position: Some(p),
                        },
                    );
                },
            }
            i = i + 1;
        }
        proof {
            assert(self@ =~= prepare_cells(orig));
        }
    }

    /// Walks from `start_position` in `in_direction` to where a tile
    /// carrying `number` comes to rest, reporting whether it merges there.
    fn find_dest(&self, number: u64, start_position: Position, in_direction: Direction) -> (r: (
        Position,
        bool,
    ))
        requires
            self@.len() == 16,
            in_bounds(start_position),
        ensures
            r == slide_dest(self@, number, start_position, in_direction),
            in_bounds(r.0),
    {
        let mut cur = start_position;
        loop
            invariant
                self@.len() == 16,
                in_bounds(cur),
                slide_dest(self@, number, cur, in_direction) == slide_dest(
                    self@,
                    number,
                    start_position,
                    in_direction,
                ),
            decreases edge_distance(cur, in_direction),
        {
            match cur.step(in_direction) {
                None => {
                    return (cur, false);
                },
                Some(next) => {
                    proof {
                        assert(in_bounds(next));
                    }
                    match self.cell_at(next) {
                        Some(occ) => {
                            let occ_merged = matches!(occ.state, TileState::Merged);
                            if occ.number == number && !occ_merged {
                                return (next, true);
                            } else {
                                return (cur, false);
                            }
                        },
                        None => {
                            cur = next;
                        },
                    }
                },
            }
        }
    }

    /// One traversal step of a move: slides the tile at `start_position`
    /// (if any) as far as it goes in `in_direction`, merging it into an
    /// equal neighbour that has not merged this move, and reports whether
    /// anything moved.
    fn traverse_from(&mut self, start_position: Position, in_direction: Direction) -> (moved: bool)
        requires
            old(self)@.len() == 16,
            in_bounds(start_position),
            mid_numbers_ok(old(self)@),
        ensures
            final(self)@ == do_slide(old(self)@, start_position, in_direction),
            moved == slide_moves(old(self)@, start_position, in_direction),
            final(self)@.len() == 16,
            mid_numbers_ok(final(self)@),
            final(self).spawning_enabled() == old(self).spawning_enabled(),
    {
        let start_tile = match self.cell_at(start_position) {
            None => {
                return false;
            },
            Some(t) => t,
        };
        let (dest, merged) = self.find_dest(start_tile.number, start_position, in_direction);
        if dest == start_position {
            return false;
        }
        proof {
            lemma_slide_dest(self@, start_tile.number, start_position, in_direction);
            if merged {
                lemma_tile_number_double(start_tile.number as nat);
            }
        }
        let new_tile = if merged {
            Tile {
                number: start_tile.number * 2,
                state: TileState::Merged,
                previous_position: start_tile.previous_position,
            }
        } else {
            start_tile
        };
        let ghost before = self@;
        self.set_cell(start_position, None);
        self.set_cell(dest, Some(new_tile));
        proof {
            assert(self@ == do_slide(before, start_position, in_direction));
            assert forall|k: int| 0 <= k < 16 implies (#[trigger] self@[k] matches Some(t) ==> {
                &&& is_tile_number(t.number as nat)
                &&& t.number <= MERGED_MAX
                &&& t.state != TileState::Merged ==> t.number <= SLIDE_MAX
            }) by {
                if k != index_of(start_position) && k != index_of(dest) {
                    assert(self@[k] == before[k]);
                }
            }
        }
        true
    }

    /// Executes one move: prepares every tile, slides each source cell in
    /// traversal order, and — when something moved, spawning is enabled and
    /// an empty cell remains — spawns one random tile.
    pub fn move_in(&mut self, direction: Direction)
        requires
            old(self).wf(),
            numbers_fit(old(self)@),
        ensures
            final(self).wf(),
            final(self).spawning_enabled() == old(self).spawning_enabled(),
            move_changes(old(self)@, direction) && old(self).spawning_enabled() && has_empty(
                moved_cells(old(self)@, direction),
            ) ==> spawned(moved_cells(old(self)@, direction), final(self)@),
            !(move_changes(old(self)@, direction) && old(self).spawning_enabled() && has_empty(
                moved_cells(old(self)@, direction),
            )) ==> final(self)@ == moved_cells(old(self)@, direction),
    {
        let ghost original = self@;
        let ghost flag = self.spawning_enabled();
        self.prepare_for_move();
        let ghost prepared = self@;
        let traversal = direction.build_traversal();
        let mut moved = false;
        let mut k: usize = 0;
        while k < 16
            invariant
                traversal@.len() == 16,
                forall|m: int| 0 <= m < 16 ==> traversal@[m] == traversal_position(direction, m),
                k <= 16,
                self@.len() == 16,
                mid_numbers_ok(self@),
                self@ == run_slides(prepared, direction, k as int),
                moved == any_slide_moved(prepared, direction, k as int),
                self.spawning_enabled() == flag,
                prepared == prepare_cells(original),
                prepared.len() == 16,
            decreases 16 - k,
        {
            let p = traversal[k];
            proof {
                assert(p == traversal_position(direction, k as int));
                assert(in_bounds(p));
            }
            let m = self.traverse_from(p, direction);
            moved = moved || m;
            k = k + 1;
        }
        let ghost slid = self@;
        if moved {
            self.add_random_tile();
        }
        proof {
            assert(numbers_valid(slid));
            assert(is_tile_number(2nat));
            assert(4nat % 2 == 0 && is_tile_number(4nat / 2));
            assert(is_tile_number(4nat));
            if moved && flag && has_empty(slid) {
                let w = choose|k: int|
                    0 <= k < slid.len() && slid[k] is None && (self@ == slid.update(
                        k,
                        Some(spawn_tile(2)),
                    ) || self@ == slid.update(k, Some(spawn_tile(4))));
                assert forall|k: int|
                    0 <= k < self@.len() implies (#[trigger] self@[k] matches Some(t)
                    ==> is_tile_number(t.number as nat)) by {
                    if k != w {
                        assert(self@[k] == slid[k]);
                    }
                }
            }
        }
    }

    /// Spawns one tile, when spawning is enabled and an empty cell exists:
    /// a uniformly chosen empty cell receives a new tile numbered 4 with
    /// chance one in ten, else 2.
    fn add_random_tile(&mut self)
        requires
            old(self)@.len() == 16,
        ensures
            final(self)@.len() == 16,
            final(self).spawning_enabled() == old(self).spawning_enabled(),
            old(self).spawning_enabled() && has_empty(old(self)@) ==> spawned(
                old(self)@,
                final(self)@,
            ),
            !(old(self).spawning_enabled() && has_empty(old(self)@)) ==> final(self)@ == old(
                self,
            )@,
    {
        if !self.enable_new_tiles {
            return ;
        }
        let ghost orig = self@;
        let mut empties: Vec<usize> = Vec::new();
        let mut i: usize = 0;
        while i < 16
            invariant
                i <= 16,
                self@ == orig,
                orig.len() == 16,
                forall|m: int|
                    0 <= m < empties@.len() ==> (#[trigger] empties@[m] < 16 && orig[empties@[m] as int] is None),
                forall|m: int| 0 <= m < i ==> (orig[m] is None ==> empties@.contains(m as usize)),
            decreases 16 - i,
        {
            let ghost old_empties = empties@;
            if self.cells[i].is_none() {
                empties.push(i);
            }
            proof {
                assert forall|m: int| 0 <= m < i + 1 && orig[m] is None implies empties@.contains(
                    m as usize,
                ) by {
                    if m < i {
                        let n = choose|n: int|
                            0 <= n < old_empties.len() && old_empties[n] == m as usize;
                        assert(empties@[n] == m as usize);
                    } else {
                        assert(empties@[empties@.len() - 1] == i);
                    }
                }
            }
            i = i + 1;
        }
        if empties.len() == 0 {
            proof {
                if has_empty(orig) {
                    let w = choose|k: int| 0 <= k < orig.len() && orig[k] is None;
                    assert(empties@.contains(w as usize));
                }
            }
            return ;
        }
        let pick = rng_below(&mut self.rng, empties.len() as u64);
        let idx = empties[pick as usize];
        let draw = rng_below(&mut self.rng, 10);
        let number: u64 = if draw == 9 {
            4
        } else {
            2
        };
        self.cells[idx] = Some(Tile::new(number));
        proof {
            assert(empties@.contains(empties@[pick as int]));
            assert(orig[idx as int] is None);
            assert(self@ == orig.update(idx as int, Some(spawn_tile(number))));
        }
    }

    /// Whether every tile is still small enough for one more merge: the
    /// room `move_in` asks for. A real game never comes close to the cap.
    pub fn has_merge_headroom(&self) -> (r: bool)
        requires
            self@.len() == 16,
        ensures
            r == numbers_fit(self@),
    {
        let mut k: usize = 0;
        while k < 16
            invariant
                k <= 16,
                self@.len() == 16,
                forall|m: int|
                    0 <= m < k ==> (#[trigger] self@[m] matches Some(t) ==> t.number <= SLIDE_MAX),
            decreases 16 - k,
        {
            match self.cells[k] {
                None => {},
                Some(t) => {
                    if t.number > SLIDE_MAX {
                        proof {
                            assert(self@[k as int] matches Some(t) && t.number > SLIDE_MAX);
                        }
                        return false;
                    }
                },
            }
            k = k + 1;
        }
        true
    }

    /// The renderable projection of the board: one entry per tile in cell
    /// order, a Merged tile expanded into itself plus a ghost of its
    /// pre-merge half. A pure projection: the board is not changed.
    pub fn tiles(&self) -> (r: Vec<(Position, Tile)>)
        requires
            self@.len() == 16,
        ensures
            r@ == render_cells(self@, 16),
    {
        let mut out: Vec<(Position, Tile)> = Vec::new();
        let mut i: usize = 0;
        while i < 16
            invariant
                i <= 16,
                self@.len() == 16,
                out@ == render_cells(self@, i as int),
            decreases 16 - i,
        {
            match self.cells[i] {
                None => {},
                Some(t) => {
                    let p = Position::from_index(i);
                    out.push((p, t));
                    if matches!(t.state, TileState::Merged) {
                        out.push(
                            (
                                p,
                                Tile {
                                    number: t.number / 2,
                                    state: TileState::Static,
                                    previous_position: t.previous_position,
                                },
                            ),
                        );
                    }
                },
            }
            proof {
                assert(out@ =~= render_cells(self@, i as int + 1));
            }
            i = i + 1;
        }
        out
    }
}

impl Default for Grid {
    /// An empty board that then spawns two tiles, as a fresh game starts.
    fn default() -> (g: Grid)
        ensures
            g.wf(),
            g.spawning_enabled(),
            numbers_fit(g@),
            occupied_count(g@) == 2,
            forall|k: int|
                0 <= k < 16 ==> (#[trigger] g@[k] matches Some(t) ==> t.state == TileState::New
                    && (t.number == 2 || t.number == 4) && t.previous_position is None),
    {
        let mut cells: Vec<Cell> = Vec::new();
        let mut i: usize = 0;
        while i < 16
            invariant
                i <= 16,
                cells@.len() == i,
                forall|m: int| 0 <= m < i ==> cells@[m] is None,
            decreases 16 - i,
        {
            cells.push(None);
            i = i + 1;
        }
        let mut g = Grid { cells, rng: fresh_rng(), enable_new_tiles: true };
        proof {
            lemma_occupied_all_none(g@);
            assert(g@[0] is None);
        }
        let ghost empty_board = g@;
        g.add_random_tile();
        let ghost first = g@;
        proof {
            spawned_properties(empty_board, first);
            let w = spawn_witness(empty_board, first);
            lemma_occupied_update(empty_board, w, first[w]);
            assert(first[if w == 0 {
                1int
            } else {
                0int
            }] is None);
        }
        g.add_random_tile();
        proof {
            spawned_properties(empty_board, first);
            spawned_properties(first, g@);
            let w1 = spawn_witness(empty_board, first);
            let w2 = spawn_witness(first, g@);
            lemma_occupied_update(first, w2, g@[w2]);
            assert(is_tile_number(2nat));
            assert(4nat % 2 == 0 && is_tile_number(4nat / 2));
            assert(is_tile_number(4nat));
            assert forall|k: int|
                0 <= k < 16 implies (#[trigger] g@[k] matches Some(t) ==> t.state == TileState::New
                && (t.number == 2 || t.number == 4) && t.previous_position is None
                && is_tile_number(t.number as nat) && t.number <= SLIDE_MAX) by {
                if k != w2 {
                    assert(g@[k] == first[k]);
                    if k != w1 {
                        assert(first[k] == empty_board[k]);
                    }
                }
            }
        }
        g
    }
}

impl PartialEq for Grid {
    /// Boards are equal exactly when their 16 cells are alike, compared by
    /// tile number alone; the random source and the spawning flag are
    /// ignored.
    fn eq(&self, other: &Grid) -> (r: bool) {
        if self.cells.len() != other.cells.len() {
            return false;
        }
        let mut k: usize = 0;
        while k < self.cells.len()
            invariant
                self@.len() == other@.len(),
                k <= self@.len(),
                forall|m: int| 0 <= m < k ==> cells_alike(self@[m], other@[m]),
            decreases self@.len() - k,
        {
            let alike = match (self.cells[k], other.cells[k]) {
                (None, None) => true,
                (Some(x), Some(y)) => x.number == y.number,
                _ => false,
            };
            if !alike {
                return false;
            }
            k = k + 1;
        }
        true
    }
}

impl vstd::std_specs::cmp::PartialEqSpecImpl for Grid {
    open spec fn obeys_eq_spec() -> bool {
        true
    }

    open spec fn eq_spec(&self, other: &Grid) -> bool {
        self@.len() == other@.len() && (forall|k: int|
            0 <= k < self@.len() ==> cells_alike(self@[k], other@[k]))
    }
}

} // verus!
