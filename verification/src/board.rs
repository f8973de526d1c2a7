//! The board model: stone colors, coordinates, moves, and the `Board` itself
//! with move application (including captures), legality checking with
//! positional superko, the two-pass end-of-game rule and area scoring.

use vstd::prelude::*;

verus! {

/// The color of a point on the board: a stone of either player, or empty.
#[derive(Clone, Copy, Debug, PartialEq, Eq, Structural)]
pub enum Color {
    Black,
    White,
    Empty,
}

impl Color {
    /// The opposing player's color.  `Empty` has no opponent and is returned
    /// unchanged.
    pub fn opposite(self) -> (r: Color)
        ensures
            r == self.spec_opposite(),
    {
        match self {
            Color::Black => Color::White,
            Color::White => Color::Black,
            Color::Empty => Color::Empty,
        }
    }

    pub open spec fn spec_opposite(self) -> Color {
        match self {
            Color::Black => Color::White,
            Color::White => Color::Black,
            Color::Empty => Color::Empty,
        }
    }

    /// True for the two player colors, false for `Empty`.
    pub open spec fn is_player(self) -> bool {
        self == Color::Black || self == Color::White
    }
}

/// A point on the board, with 1-indexed column and row (so the lower-left
/// corner of a Go board is column 1, row 1).
#[derive(Clone, Copy, Debug, PartialEq, Eq, Structural)]
pub struct Coord {
    pub col: u8,
    pub row: u8,
}

impl Coord {
    pub fn new(col: u8, row: u8) -> (r: Coord)
        ensures
            r.col == col && r.row == row,
    {
        Coord { col, row }
    }

    pub open spec fn spec_is_inside(self, size: u8) -> bool {
        1 <= self.col <= size && 1 <= self.row <= size
    }

    /// Whether the point lies on a board of the given size.
    pub fn is_inside(&self, size: u8) -> (r: bool)
        ensures
            r == self.spec_is_inside(size),
    {
        1 <= self.col && self.col <= size && 1 <= self.row && self.row <= size
    }

    pub open spec fn spec_index(self, size: u8) -> int {
        (self.row - 1) * (size as int) + (self.col - 1)
    }

    /// The position of the point in the row-major grid vector.
    pub fn to_index(&self, size: u8) -> (r: usize)
        requires
            self.spec_is_inside(size),
        ensures
            r == self.spec_index(size),
            r < board_points(size),
    {
        proof {
            lemma_index_in_range(*self, size);
            assert(0 <= (self.row - 1) * (size as int) && (self.row - 1) * (size as int) + (
            self.col - 1) < 255 * 255) by (nonlinear_arith)
                requires
                    1 <= self.row <= size && 1 <= self.col <= size && size <= 255,
            ;
        }
        (self.row as usize - 1) * (size as usize) + (self.col as usize - 1)
    }
}

/// The index of an inside point is within the grid.
proof fn lemma_index_in_range(c: Coord, size: u8)
    requires
        c.spec_is_inside(size),
    ensures
        0 <= c.spec_index(size) < board_points(size),
{
    assert(0 <= (c.row - 1) * (size as int) + (c.col - 1) < (size as int) * (size as int))
        by (nonlinear_arith)
        requires
            1 <= c.row <= size && 1 <= c.col <= size,
    ;
}

/// The number of points on a square board of the given side length.
pub open spec fn board_points(size: u8) -> int {
    (size as int) * (size as int)
}

/// A move in the game: a stone placed by a color at a column and row, a pass,
/// a resignation, or the sentinel `NoMove` used for a tree root before any
/// search has run.
#[derive(Clone, Copy, Debug, PartialEq, Eq, Structural)]
pub enum Move {
    Play(Color, u8, u8),
    Pass(Color),
    Resign(Color),
    NoMove,
}

impl Move {
    /// The color that makes the move (`Empty` for `NoMove`).
    pub fn color(&self) -> (r: Color)
        ensures
            r == self.spec_color(),
    {
        match *self {
            Move::Play(c, _, _) => c,
            Move::Pass(c) => c,
            Move::Resign(c) => c,
            Move::NoMove => Color::Empty,
        }
    }

    pub open spec fn spec_color(self) -> Color {
        match self {
            Move::Play(c, _, _) => c,
            Move::Pass(c) => c,
            Move::Resign(c) => c,
            Move::NoMove => Color::Empty,
        }
    }

    pub fn is_pass(&self) -> (r: bool)
        ensures
            r == (self is Pass),
    {
        match *self {
            Move::Pass(_) => true,
            _ => false,
        }
    }

    pub fn is_play(&self) -> (r: bool)
        ensures
            r == (self is Play),
    {
        match *self {
            Move::Play(_, _, _) => true,
            _ => false,
        }
    }

    /// The point played, for a `Play` move.
    pub fn coord(&self) -> (r: Coord)
        requires
            self is Play,
        ensures
            r == self.spec_coord(),
    {
        match *self {
            Move::Play(_, col, row) => Coord { col, row },
            _ => Coord { col: 0, row: 0 },
        }
    }

    pub open spec fn spec_coord(self) -> Coord {
        match self {
            Move::Play(_, col, row) => Coord { col, row },
            _ => Coord { col: 0, row: 0 },
        }
    }
}

/// Why a move is rejected.
#[derive(Clone, Copy, Debug, PartialEq, Eq, Structural)]
pub enum IllegalMove {
    GameAlreadyOver,
    PlayOutOfBoard,
    IntersectionNotEmpty,
    SamePlayerPlayedTwice,
    SuicidePlay,
    SuperKo,
}

/// The rule set a game is played under.  All rule sets here use area scoring
/// and forbid suicide; the variants record what the protocol layer selected.
#[derive(Clone, Copy, Debug, PartialEq, Eq, Structural)]
pub enum Ruleset {
    KgsChinese,
    TrompTaylor,
    Minimal,
}

/// Two grid indices are orthogonally adjacent on a `size`-wide row-major grid.
pub open spec fn adjacent(size: u8, q: int, p: int) -> bool {
    &&& 0 <= q < board_points(size)
    &&& 0 <= p < board_points(size)
    &&& {
        ||| (p == q + 1 && (q + 1) % (size as int) != 0)
        ||| (p == q - 1 && q % (size as int) != 0)
        ||| p == q + size
        ||| p == q - size
    }
}

/// The indices marked `true` in a mark vector, as a set.
pub open spec fn marks_set(s: Seq<bool>) -> Set<int> {
    Set::new(|p: int| 0 <= p < s.len() && s[p])
}

/// One step of flooding: everything in `s`, plus every point of color `c`
/// adjacent to a point of `s`.
pub open spec fn reach_step(grid: Seq<Color>, size: u8, c: Color, s: Set<int>) -> Set<int> {
    s.union(
        Set::new(
            |p: int|
                0 <= p < grid.len() && grid[p] == c && exists|q: int|
                    s.contains(q) && adjacent(size, q, p),
        ),
    )
}

/// The points of color `grid[start]` connected to `start` in at most `k`
/// orthogonal steps.
pub open spec fn reach_within(grid: Seq<Color>, size: u8, start: int, k: nat) -> Set<int>
    decreases k,
{
    if k == 0 {
        set![start]
    } else {
        reach_step(grid, size, grid[start], reach_within(grid, size, start, (k - 1) as nat))
    }
}

/// The chain (for a stone) or region (for an empty point) containing `start`:
/// the points of the same color connected to `start`.  A step count of
/// `board_points(size)` always saturates the flood.
pub open spec fn chain_of(grid: Seq<Color>, size: u8, start: int) -> Set<int> {
    reach_within(grid, size, start, board_points(size) as nat)
}

/// Some point of color `c` is adjacent to the set `s`.
pub open spec fn set_touches(grid: Seq<Color>, size: u8, s: Set<int>, c: Color) -> bool {
    exists|q: int, p: int|
        s.contains(q) && adjacent(size, q, p) && 0 <= p < grid.len() && grid[p] == c
}

/// The chain containing the stone at `start` has at least one liberty.
pub open spec fn chain_has_liberty(grid: Seq<Color>, size: u8, start: int) -> bool {
    set_touches(grid, size, chain_of(grid, size, start), Color::Empty)
}

/// Flooding is stable from step `i` on once one step makes no progress.
proof fn lemma_reach_stable(grid: Seq<Color>, size: u8, start: int, i: nat, k: nat)
    requires
        reach_within(grid, size, start, i) == reach_within(grid, size, start, i + 1),
        i <= k,
    ensures
        reach_within(grid, size, start, k) == reach_within(grid, size, start, i),
    decreases k,
{
    if k > i {
        lemma_reach_stable(grid, size, start, i, (k - 1) as nat);
        assert(reach_within(grid, size, start, k) == reach_step(
            grid,
            size,
            grid[start],
            reach_within(grid, size, start, (k - 1) as nat),
        ));
    }
}

/// The board has at most 255 * 255 points.
pub proof fn lemma_points_bound(size: u8)
    ensures
        0 <= board_points(size) <= 255 * 255,
        1 <= size ==> 1 <= board_points(size),
{
    assert(0 <= (size as int) * (size as int) <= 255 * 255) by (nonlinear_arith)
        requires
            size <= 255,
    ;
    if 1 <= size {
        assert(1 <= (size as int) * (size as int)) by (nonlinear_arith)
            requires
                1 <= size,
        ;
    }
}

/// A stone none of whose neighbours shares its color forms a chain of one.
pub proof fn lemma_singleton_chain(grid: Seq<Color>, size: u8, start: int)
    requires
        0 <= start < grid.len(),
        grid.len() == board_points(size),
        forall|p: int| adjacent(size, start, p) ==> grid[p] != grid[start],
    ensures
        chain_of(grid, size, start) == set![start],
{
    lemma_reach_singleton(grid, size, start, board_points(size) as nat);
}

proof fn lemma_reach_singleton(grid: Seq<Color>, size: u8, start: int, k: nat)
    requires
        0 <= start < grid.len(),
        grid.len() == board_points(size),
        forall|p: int| adjacent(size, start, p) ==> grid[p] != grid[start],
    ensures
        reach_within(grid, size, start, k) == set![start],
    decreases k,
{
    if k > 0 {
        lemma_reach_singleton(grid, size, start, (k - 1) as nat);
        assert(reach_step(grid, size, grid[start], set![start]) =~= set![start]) by {
            assert forall|p: int|
                !(0 <= p < grid.len() && grid[p] == grid[start] && exists|q: int|
                    set![start].contains(q) && adjacent(size, q, p)) by {
                if 0 <= p < grid.len() && grid[p] == grid[start] {
                    if exists|q: int| set![start].contains(q) && adjacent(size, q, p) {
                        let q = choose|q: int| set![start].contains(q) && adjacent(size, q, p);
                        assert(q == start);
                    }
                }
            }
        }
    }
}

/// A chain of one stone breathes exactly when some neighbour is empty.
pub proof fn lemma_singleton_liberty(grid: Seq<Color>, size: u8, start: int, lib: int)
    requires
        0 <= start < grid.len(),
        grid.len() == board_points(size),
        chain_of(grid, size, start) == set![start],
        adjacent(size, start, lib),
        grid[lib] == Color::Empty,
    ensures
        chain_has_liberty(grid, size, start),
{
    assert(set![start].contains(start) && adjacent(size, start, lib) && 0 <= lib < grid.len()
        && grid[lib] == Color::Empty);
}

/// A play on a vacant point whose stone lands alone (no neighbour of its
/// color), breathing, capturing nothing and repeating nothing, is accepted,
/// and the resulting grid is just the stone placed.
pub proof fn lemma_quiet_play_ok(b: Board, col: u8, row: u8)
    requires
        b.well_formed(),
        !b.spec_over(),
        (Coord { col, row }).spec_is_inside(b.size),
        b.grid@[(Coord { col, row }).spec_index(b.size)] == Color::Empty,
        forall|p: int|
            adjacent(b.size, (Coord { col, row }).spec_index(b.size), p) ==> b.grid@.update(
                (Coord { col, row }).spec_index(b.size),
                b.next,
            )[p] != b.next,
        exists|p: int|
            adjacent(b.size, (Coord { col, row }).spec_index(b.size), p) && b.grid@.update(
                (Coord { col, row }).spec_index(b.size),
                b.next,
            )[p] == Color::Empty,
        forall|p: int|
            0 <= p < b.grid@.len() && b.grid@.update(
                (Coord { col, row }).spec_index(b.size),
                b.next,
            )[p] == b.next.spec_opposite() ==> chain_has_liberty(
                b.grid@.update((Coord { col, row }).spec_index(b.size), b.next),
                b.size,
                p,
            ),
        !b.spec_repeats(b.grid@.update((Coord { col, row }).spec_index(b.size), b.next)),
    ensures
        b.spec_check(Move::Play(b.next, col, row)) is Ok,
        spec_grid_after(b.grid@, b.size, b.next, (Coord { col, row }).spec_index(b.size))
            == b.grid@.update((Coord { col, row }).spec_index(b.size), b.next),
{
    let idx = (Coord { col, row }).spec_index(b.size);
    let placed = b.grid@.update(idx, b.next);
    assert(spec_grid_after(b.grid@, b.size, b.next, idx) =~= placed) by {
        assert forall|p: int|
            0 <= p < b.grid@.len() implies spec_grid_after(b.grid@, b.size, b.next, idx)[p]
            == placed[p] by {
            if placed[p] == b.next.spec_opposite() {
                assert(chain_has_liberty(placed, b.size, p));
            }
        }
    }
    lemma_singleton_chain(placed, b.size, idx);
    let lib = choose|p: int| adjacent(b.size, idx, p) && placed[p] == Color::Empty;
    lemma_singleton_liberty(placed, b.size, idx, lib);
    assert(!spec_suicide(b.grid@, b.size, b.next, idx));
}

/// Every vacant coordinate lies on the board.
pub proof fn lemma_vacant_inside(grid: Seq<Color>, size: u8, i: int)
    requires
        grid.len() == board_points(size),
        1 <= size,
    ensures
        forall|t: int|
            0 <= t < vacant_from(grid, size, i).len() ==> (#[trigger] vacant_from(
                grid,
                size,
                i,
            )[t]).spec_is_inside(size),
    decreases grid.len() - i,
{
    if 0 <= i < grid.len() {
        lemma_vacant_inside(grid, size, i + 1);
        assert(0 <= i % (size as int) < size && 0 <= i / (size as int) < size)
            by (nonlinear_arith)
            requires
                0 <= i < (size as int) * (size as int) && 1 <= size,
        ;
        assert(coord_at(size, i).spec_is_inside(size));
        assert forall|t: int|
            0 <= t < vacant_from(grid, size, i).len() implies (#[trigger] vacant_from(
            grid,
            size,
            i,
        )[t]).spec_is_inside(size) by {
            if grid[i] == Color::Empty {
                if t > 0 {
                    assert(vacant_from(grid, size, i)[t] == vacant_from(grid, size, i + 1)[t - 1]);
                }
            } else {
                assert(vacant_from(grid, size, i)[t] == vacant_from(grid, size, i + 1)[t]);
            }
        }
    }
}

/// There are no more vacant points than points.
pub proof fn lemma_vacant_from_len(grid: Seq<Color>, size: u8, i: int)
    ensures
        vacant_from(grid, size, i).len() <= grid.len() - i || vacant_from(grid, size, i).len()
            == 0,
    decreases grid.len() - i,
{
    if 0 <= i < grid.len() {
        lemma_vacant_from_len(grid, size, i + 1);
    }
}

/// Whether any point adjacent to `p` is marked.
pub fn any_marked_neighbour(size: u8, p: usize, marks: &Vec<bool>) -> (r: bool)
    requires
        1 <= size,
        p < board_points(size),
        marks@.len() == board_points(size),
    ensures
        r == exists|q: int| marks_set(marks@).contains(q) && adjacent(size, q, p as int),
{
    proof {
        lemma_points_bound(size);
    }
    let points = (size as usize) * (size as usize);
    let s = size as usize;
    if p % s != 0 && marks[p - 1] {
        proof {
            assert(p >= 1) by {
                if p == 0 {
                    assert(0int % (size as int) == 0);
                }
            }
            assert(adjacent(size, p - 1, p as int));
        }
        return true;
    }
    if (p + 1) % s != 0 && p + 1 < points && marks[p + 1] {
        proof {
            assert(adjacent(size, p + 1, p as int)) by {
                assert((p + 1) - 1 == p as int && (p + 1) % (size as int) != 0);
            }
        }
        return true;
    }
    if p >= s && marks[p - s] {
        proof {
            assert(adjacent(size, p - s, p as int));
        }
        return true;
    }
    if p + s < points && marks[p + s] {
        proof {
            assert(adjacent(size, p + s, p as int));
        }
        return true;
    }
    proof {
        assert forall|q: int| adjacent(size, q, p as int) implies !marks_set(marks@).contains(
            q,
        ) by {
            assert(q == p - 1 || q == p + 1 || q == p - size || q == p + size);
        }
    }
    false
}

/// One exec flooding step: mirror of `reach_step`, with a flag that reports
/// whether anything new was marked.
fn flood_step(grid: &Vec<Color>, size: u8, c: Color, marks: &Vec<bool>) -> (res: (Vec<bool>, bool))
    requires
        1 <= size,
        grid@.len() == board_points(size),
        marks@.len() == board_points(size),
    ensures
        res.0@.len() == board_points(size),
        marks_set(res.0@) == reach_step(grid@, size, c, marks_set(marks@)),
        !res.1 ==> res.0@ == marks@,
{
    proof {
        lemma_points_bound(size);
    }
    let points = (size as usize) * (size as usize);
    let mut out: Vec<bool> = Vec::new();
    let mut changed = false;
    let mut p: usize = 0;
    while p < points
        invariant
            1 <= size,
            p <= points,
            points == board_points(size),
            grid@.len() == board_points(size),
            marks@.len() == board_points(size),
            out@.len() == p,
            forall|j: int|
                0 <= j < p ==> out@[j] == (marks@[j] || (grid@[j] == c && exists|q: int|
                    marks_set(marks@).contains(q) && adjacent(size, q, j))),
            changed == exists|j: int| 0 <= j < p && out@[j] != marks@[j],
        decreases points - p,
    {
        let v = if marks[p] {
            true
        } else if grid[p] == c {
            any_marked_neighbour(size, p, marks)
        } else {
            false
        };
        if v != marks[p] {
            changed = true;
        }
        out.push(v);
        p += 1;
    }
    proof {
        if !changed {
            assert(out@ =~= marks@);
        }
        assert(marks_set(out@) =~= reach_step(grid@, size, c, marks_set(marks@)));
    }
    (out, changed)
}

/// Marks of the chain (or empty region) containing `start`: the exec mirror
/// of `chain_of`, flooding until it saturates.
pub fn chain_marks(grid: &Vec<Color>, size: u8, start: usize) -> (marks: Vec<bool>)
    requires
        1 <= size,
        grid@.len() == board_points(size),
        start < board_points(size),
    ensures
        marks@.len() == board_points(size),
        marks_set(marks@) == chain_of(grid@, size, start as int),
{
    proof {
        lemma_points_bound(size);
    }
    let points = (size as usize) * (size as usize);
    let c = grid[start];
    let mut marks: Vec<bool> = Vec::new();
    let mut i: usize = 0;
    while i < points
        invariant
            i <= points,
            marks@.len() == i,
            forall|j: int| 0 <= j < i ==> out_mark(#[trigger] marks@[j], j, start as int),
        decreases points - i,
    {
        marks.push(i == start);
        i += 1;
    }
    proof {
        assert(marks_set(marks@) =~= reach_within(grid@, size, start as int, 0));
    }
    let mut k: usize = 0;
    while k < points
        invariant
            1 <= size,
            k <= points,
            points == board_points(size),
            grid@.len() == board_points(size),
            start < board_points(size),
            c == grid@[start as int],
            marks@.len() == board_points(size),
            marks_set(marks@) == reach_within(grid@, size, start as int, k as nat),
        decreases points - k,
    {
        let (next, step_changed) = flood_step(grid, size, c, &marks);
        proof {
            assert(marks_set(next@) == reach_within(grid@, size, start as int, (k + 1) as nat));
        }
        if !step_changed {
            proof {
                lemma_reach_stable(grid@, size, start as int, k as nat, board_points(size) as nat);
            }
            return next;
        }
        marks = next;
        k += 1;
    }
    marks
}

/// Helper predicate for building the initial mark vector.
spec fn out_mark(b: bool, j: int, start: int) -> bool {
    b == (j == start)
}

/// Whether any point adjacent to `q` holds the color `c`.
fn any_neighbour_color(grid: &Vec<Color>, size: u8, q: usize, c: Color) -> (r: bool)
    requires
        1 <= size,
        q < board_points(size),
        grid@.len() == board_points(size),
    ensures
        r == exists|p: int| adjacent(size, q as int, p) && 0 <= p < grid@.len() && grid@[p] == c,
{
    proof {
        lemma_points_bound(size);
    }
    let points = (size as usize) * (size as usize);
    let s = size as usize;
    if q % s != 0 && grid[q - 1] == c {
        proof {
            assert(q >= 1) by {
                if q == 0 {
                    assert(0int % (size as int) == 0);
                }
            }
            assert(adjacent(size, q as int, q - 1));
        }
        return true;
    }
    if (q + 1) % s != 0 && q + 1 < points && grid[q + 1] == c {
        proof {
            assert(adjacent(size, q as int, q + 1));
        }
        return true;
    }
    if q >= s && grid[q - s] == c {
        proof {
            assert(adjacent(size, q as int, q - s));
        }
        return true;
    }
    if q + s < points && grid[q + s] == c {
        proof {
            assert(adjacent(size, q as int, q + s));
        }
        return true;
    }
    proof {
        assert forall|p: int|
            adjacent(size, q as int, p) && 0 <= p < grid@.len() implies grid@[p] != c by {
            assert(p == q - 1 || p == q + 1 || p == q - size || p == q + size);
        }
    }
    false
}

/// Whether some point of color `c` borders the marked set: the exec mirror
/// of `set_touches`.
fn marked_touches(grid: &Vec<Color>, size: u8, marks: &Vec<bool>, c: Color) -> (r: bool)
    requires
        1 <= size,
        grid@.len() == board_points(size),
        marks@.len() == board_points(size),
    ensures
        r == set_touches(grid@, size, marks_set(marks@), c),
{
    proof {
        lemma_points_bound(size);
    }
    let points = (size as usize) * (size as usize);
    let mut q: usize = 0;
    while q < points
        invariant
            1 <= size,
            q <= points,
            points == board_points(size),
            grid@.len() == board_points(size),
            marks@.len() == board_points(size),
            forall|j: int|
                0 <= j < q && marks@[j] ==> !exists|p: int|
                    adjacent(size, j, p) && 0 <= p < grid@.len() && grid@[p] == c,
        decreases points - q,
    {
        if marks[q] && any_neighbour_color(grid, size, q, c) {
            proof {
                let p = choose|p: int|
                    adjacent(size, q as int, p) && 0 <= p < grid@.len() && grid@[p] == c;
                assert(marks_set(marks@).contains(q as int) && adjacent(size, q as int, p) && 0 <= p
                    < grid@.len() && grid@[p] == c);
            }
            return true;
        }
        q += 1;
    }
    proof {
        assert forall|j: int, p: int|
            !(marks_set(marks@).contains(j) && adjacent(size, j, p) && 0 <= p < grid@.len()
                && grid@[p] == c) by {
            if marks_set(marks@).contains(j) {
                assert(0 <= j < points && marks@[j]);
            }
        }
    }
    false
}

/// Whether the chain (or empty region) containing `start` has an adjacent
/// empty point: the exec mirror of `chain_has_liberty`.
fn chain_liberty_exec(grid: &Vec<Color>, size: u8, start: usize) -> (r: bool)
    requires
        1 <= size,
        grid@.len() == board_points(size),
        start < board_points(size),
    ensures
        r == chain_has_liberty(grid@, size, start as int),
{
    let marks = chain_marks(grid, size, start);
    marked_touches(grid, size, &marks, Color::Empty)
}

/// The grid after `c` plays on the vacant point `idx`: the stone is placed,
/// then every opposing chain left without a liberty is removed.
pub open spec fn spec_grid_after(grid: Seq<Color>, size: u8, c: Color, idx: int) -> Seq<Color> {
    let placed = grid.update(idx, c);
    Seq::new(
        grid.len(),
        |p: int|
            if placed[p] == c.spec_opposite() && !chain_has_liberty(placed, size, p) {
                Color::Empty
            } else {
                placed[p]
            },
    )
}

/// A play is suicide when, after opposing captures are resolved, the played
/// stone's own chain still has no liberty.
pub open spec fn spec_suicide(grid: Seq<Color>, size: u8, c: Color, idx: int) -> bool {
    !chain_has_liberty(spec_grid_after(grid, size, c, idx), size, idx)
}

/// Exec mirror of `spec_grid_after`.
pub fn compute_grid_after(grid: &Vec<Color>, size: u8, c: Color, idx: usize) -> (r: Vec<Color>)
    requires
        1 <= size,
        grid@.len() == board_points(size),
        idx < board_points(size),
    ensures
        r@ =~= spec_grid_after(grid@, size, c, idx as int),
        r@.len() == board_points(size),
{
    proof {
        lemma_points_bound(size);
    }
    let points = (size as usize) * (size as usize);
    let mut placed: Vec<Color> = Vec::new();
    let mut p: usize = 0;
    while p < points
        invariant
            p <= points,
            points == board_points(size),
            grid@.len() == board_points(size),
            idx < board_points(size),
            placed@.len() == p,
            forall|j: int| 0 <= j < p ==> placed@[j] == grid@.update(idx as int, c)[j],
        decreases points - p,
    {
        if p == idx {
            placed.push(c);
        } else {
            placed.push(grid[p]);
        }
        p += 1;
    }
    proof {
        assert(placed@ =~= grid@.update(idx as int, c));
    }
    let opp = c.opposite();
    let mut out: Vec<Color> = Vec::new();
    let mut p2: usize = 0;
    while p2 < points
        invariant
            1 <= size,
            p2 <= points,
            points == board_points(size),
            grid@.len() == board_points(size),
            idx < board_points(size),
            placed@ == grid@.update(idx as int, c),
            placed@.len() == board_points(size),
            opp == c.spec_opposite(),
            out@.len() == p2,
            forall|j: int|
                0 <= j < p2 ==> out@[j] == (if placed@[j] == c.spec_opposite()
                    && !chain_has_liberty(placed@, size, j) {
                    Color::Empty
                } else {
                    placed@[j]
                }),
        decreases points - p2,
    {
        let v = placed[p2];
        if v == opp && !chain_liberty_exec(&placed, size, p2) {
            out.push(Color::Empty);
        } else {
            out.push(v);
        }
        p2 += 1;
    }
    proof {
        assert(out@ =~= spec_grid_after(grid@, size, c, idx as int));
    }
    out
}

/// The views of a sequence of stored grids.
pub open spec fn history_views(h: Seq<Vec<Color>>) -> Seq<Seq<Color>> {
    Seq::new(h.len(), |i: int| h[i]@)
}

/// A Go board together with the game state the rules need: whose turn it is,
/// the run of consecutive passes, a resignation if one happened, and every
/// position seen so far (for positional superko).
#[derive(Clone, Debug)]
pub struct Board {
    pub size: u8,
    /// Komi in half points: a komi of 6½ is stored as 13.
    pub komi2: i32,
    pub ruleset: Ruleset,
    /// Row-major: the point at column `c`, row `r` (1-indexed) is entry
    /// `(r - 1) * size + (c - 1)`.
    pub grid: Vec<Color>,
    /// The color to move next.
    pub next: Color,
    pub consecutive_passes: u8,
    /// `Empty` while nobody has resigned, else the resigning color.
    pub resigned: Color,
    pub moves_played: u64,
    /// Every position that has occurred, the current one included.
    pub history: Vec<Vec<Color>>,
}

impl Board {
    /// The structural invariant every board built by this module satisfies.
    pub open spec fn well_formed(self) -> bool {
        &&& 1 <= self.size <= 25
        &&& self.grid@.len() == board_points(self.size)
        &&& self.next.is_player()
        &&& self.consecutive_passes <= 2
        &&& forall|i: int|
            0 <= i < self.history@.len() ==> (#[trigger] self.history@[i])@.len() == board_points(
                self.size,
            )
    }

    /// The game has ended: two consecutive passes, or a resignation.
    pub open spec fn spec_over(self) -> bool {
        self.consecutive_passes >= 2 || self.resigned.is_player()
    }

    /// The candidate grid would repeat a position already seen.
    pub open spec fn spec_repeats(self, candidate: Seq<Color>) -> bool {
        exists|i: int|
            0 <= i < self.history@.len() && (#[trigger] self.history@[i])@ =~= candidate
    }

    /// Exactly when each move is accepted, and which error it draws when not.
    /// Checks run in this order: game over, turn, on-board, vacancy, suicide,
    /// superko.
    pub open spec fn spec_check(self, m: Move) -> Result<(), IllegalMove> {
        if self.spec_over() {
            Err(IllegalMove::GameAlreadyOver)
        } else if m.spec_color() != self.next {
            Err(IllegalMove::SamePlayerPlayedTwice)
        } else {
            match m {
                Move::Play(c, col, row) => {
                    let coord = Coord { col, row };
                    if !coord.spec_is_inside(self.size) {
                        Err(IllegalMove::PlayOutOfBoard)
                    } else if self.grid@[coord.spec_index(self.size)] != Color::Empty {
                        Err(IllegalMove::IntersectionNotEmpty)
                    } else if spec_suicide(self.grid@, self.size, c, coord.spec_index(self.size)) {
                        Err(IllegalMove::SuicidePlay)
                    } else if self.spec_repeats(
                        spec_grid_after(self.grid@, self.size, c, coord.spec_index(self.size)),
                    ) {
                        Err(IllegalMove::SuperKo)
                    } else {
                        Ok(())
                    }
                },
                _ => Ok(()),
            }
        }
    }

    /// A move is legal when `spec_check` accepts it.
    pub open spec fn spec_legal(self, m: Move) -> bool {
        self.spec_check(m) is Ok
    }

    /// A fresh, empty board.  Black moves first.
    pub fn new(size: u8, komi2: i32, ruleset: Ruleset) -> (r: Board)
        requires
            1 <= size <= 25,
        ensures
            r.well_formed(),
            r.size == size && r.komi2 == komi2 && r.ruleset == ruleset,
            r.next == Color::Black,
            r.consecutive_passes == 0 && r.resigned == Color::Empty && r.moves_played == 0,
            forall|p: int| 0 <= p < r.grid@.len() ==> r.grid@[p] == Color::Empty,
            history_views(r.history@) =~= seq![r.grid@],
    {
        proof {
            lemma_points_bound(size);
        }
        let points = (size as usize) * (size as usize);
        let mut grid: Vec<Color> = Vec::new();
        let mut i: usize = 0;
        while i < points
            invariant
                i <= points,
                grid@.len() == i,
                forall|p: int| 0 <= p < i ==> grid@[p] == Color::Empty,
            decreases points - i,
        {
            grid.push(Color::Empty);
            i += 1;
        }
        let mut history: Vec<Vec<Color>> = Vec::new();
        history.push(grid.clone());
        Board {
            size,
            komi2,
            ruleset,
            grid,
            next: Color::Black,
            consecutive_passes: 0,
            resigned: Color::Empty,
            moves_played: 0,
            history,
        }
    }

    /// The color at the given 1-indexed column and row, or `None` when the
    /// point is off the board.
    pub fn get(&self, col: u8, row: u8) -> (r: Option<Color>)
        requires
            self.well_formed(),
        ensures
            r == if (Coord { col, row }).spec_is_inside(self.size) {
                Some(self.grid@[(Coord { col, row }).spec_index(self.size)])
            } else {
                None::<Color>
            },
    {
        let coord = Coord::new(col, row);
        if coord.is_inside(self.size) {
            let idx = coord.to_index(self.size);
            Some(self.grid[idx])
        } else {
            None
        }
    }

    pub fn size(&self) -> (r: u8)
        ensures
            r == self.size,
    {
        self.size
    }

    /// Komi in half points.
    pub fn komi2(&self) -> (r: i32)
        ensures
            r == self.komi2,
    {
        self.komi2
    }

    pub fn next_player(&self) -> (r: Color)
        ensures
            r == self.next,
    {
        self.next
    }

    pub fn move_count(&self) -> (r: u64)
        ensures
            r == self.moves_played,
    {
        self.moves_played
    }

    /// Two consecutive passes (or a resignation) end the game.
    pub fn is_game_over(&self) -> (r: bool)
        ensures
            r == self.spec_over(),
    {
        self.consecutive_passes >= 2 || match self.resigned {
            Color::Empty => false,
            _ => true,
        }
    }

    /// Run the full legality checks on a move without applying it.
    pub fn check_move(&self, m: Move) -> (r: Result<(), IllegalMove>)
        requires
            self.well_formed(),
        ensures
            r == self.spec_check(m),
    {
        if self.is_game_over() {
            return Err(IllegalMove::GameAlreadyOver);
        }
        if m.color() != self.next {
            return Err(IllegalMove::SamePlayerPlayedTwice);
        }
        match m {
            Move::Play(c, col, row) => {
                let coord = Coord::new(col, row);
                if !coord.is_inside(self.size) {
                    return Err(IllegalMove::PlayOutOfBoard);
                }
                let idx = coord.to_index(self.size);
                if self.grid[idx] != Color::Empty {
                    return Err(IllegalMove::IntersectionNotEmpty);
                }
                let after = compute_grid_after(&self.grid, self.size, c, idx);
                if !chain_liberty_exec(&after, self.size, idx) {
                    return Err(IllegalMove::SuicidePlay);
                }
                if self.repeats(&after) {
                    return Err(IllegalMove::SuperKo);
                }
                Ok(())
            },
            _ => Ok(()),
        }
    }

    /// Whether a move passes every legality check.
    pub fn is_legal(&self, m: Move) -> (r: bool)
        requires
            self.well_formed(),
        ensures
            r == self.spec_legal(m),
    {
        self.check_move(m).is_ok()
    }

    /// Whether the candidate grid equals a position already seen.
    fn repeats(&self, candidate: &Vec<Color>) -> (r: bool)
        ensures
            r == self.spec_repeats(candidate@),
    {
        let mut i: usize = 0;
        while i < self.history.len()
            invariant
                i <= self.history@.len(),
                forall|j: int| 0 <= j < i ==> !((#[trigger] self.history@[j])@ =~= candidate@),
            decreases self.history@.len() - i,
        {
            if grids_equal(&self.history[i], candidate) {
                return true;
            }
            i += 1;
        }
        false
    }

    /// Apply a move after checking it; on success the board advances, on
    /// failure it is unchanged and the exact error is returned.
    pub fn play_move(&mut self, m: Move) -> (r: Result<(), IllegalMove>)
        requires
            old(self).well_formed(),
        ensures
            final(self).well_formed(),
            r == old(self).spec_check(m),
            r is Err ==> *final(self) == *old(self),
            r is Ok ==> final(self).spec_advanced_by(*old(self), m),
    {
        let checked = self.check_move(m);
        if let Err(e) = checked {
            return Err(e);
        }
        match m {
            Move::Play(c, col, row) => {
                let coord = Coord::new(col, row);
                let idx = coord.to_index(self.size);
                let after = compute_grid_after(&self.grid, self.size, c, idx);
                self.history.push(after.clone());
                self.grid = after;
                self.consecutive_passes = 0;
            },
            Move::Pass(_) => {
                self.consecutive_passes = if self.consecutive_passes < 2 {
                    self.consecutive_passes + 1
                } else {
                    2
                };
            },
            Move::Resign(c) => {
                self.resigned = c;
            },
            Move::NoMove => {},
        }
        self.next = self.next.opposite();
        self.moves_played = if self.moves_played < u64::MAX {
            self.moves_played + 1
        } else {
            u64::MAX
        };
        Ok(())
    }

    /// How a successfully applied move relates the new board to the old one.
    pub open spec fn spec_advanced_by(self, b: Board, m: Move) -> bool {
        &&& self.size == b.size && self.komi2 == b.komi2 && self.ruleset == b.ruleset
        &&& self.next == b.next.spec_opposite()
        &&& self.moves_played == if b.moves_played < u64::MAX {
            b.moves_played + 1
        } else {
            u64::MAX as int
        }
        &&& match m {
            Move::Play(c, col, row) => {
                &&& self.grid@ =~= spec_grid_after(
                    b.grid@,
                    b.size,
                    c,
                    Coord { col, row }.spec_index(b.size),
                )
                &&& self.consecutive_passes == 0
                &&& self.resigned == b.resigned
                &&& history_views(self.history@) =~= history_views(b.history@).push(self.grid@)
            },
            Move::Pass(_) => {
                &&& self.grid@ == b.grid@
                &&& self.consecutive_passes == if b.consecutive_passes < 2 {
                    b.consecutive_passes + 1
                } else {
                    2
                }
                &&& self.resigned == b.resigned
                &&& history_views(self.history@) =~= history_views(b.history@)
            },
            Move::Resign(c) => {
                &&& self.grid@ == b.grid@
                &&& self.consecutive_passes == b.consecutive_passes
                &&& self.resigned == c
                &&& history_views(self.history@) =~= history_views(b.history@)
            },
            Move::NoMove => {
                &&& self.grid@ == b.grid@
                &&& self.consecutive_passes == b.consecutive_passes
                &&& self.resigned == b.resigned
                &&& history_views(self.history@) =~= history_views(b.history@)
            },
        }
    }

    /// Apply a move known to be legal; used by workers replaying a leaf's
    /// move sequence and by playouts.
    pub fn play_legal_move(&mut self, m: Move)
        requires
            old(self).well_formed(),
            old(self).spec_legal(m),
        ensures
            final(self).well_formed(),
            final(self).spec_advanced_by(*old(self), m),
    {
        let r = self.play_move(m);
    }

    /// The historical single-move interface: place a stone of `color`,
    /// whoever's turn it is.  An illegal placement leaves the position
    /// unchanged (apart from the turn being handed to `color`).
    pub fn play(self, color: Color, col: u8, row: u8) -> (r: Board)
        requires
            self.well_formed(),
            color.is_player(),
        ensures
            r.well_formed(),
            ({
                let forced = Board { next: color, ..self };
                if forced.spec_legal(Move::Play(color, col, row)) {
                    r.spec_advanced_by(forced, Move::Play(color, col, row))
                } else {
                    r == forced
                }
            }),
    {
        let mut b = self;
        b.next = color;
        let outcome = b.play_move(Move::Play(color, col, row));
        b
    }
}

/// The coordinate of the row-major grid index `i`.
pub open spec fn coord_at(size: u8, i: int) -> Coord {
    Coord { col: (i % (size as int) + 1) as u8, row: (i / (size as int) + 1) as u8 }
}

/// The vacant coordinates of the grid from index `i` on, in index order.
pub open spec fn vacant_from(grid: Seq<Color>, size: u8, i: int) -> Seq<Coord>
    decreases grid.len() - i,
{
    if i < 0 || i >= grid.len() {
        Seq::empty()
    } else if grid[i] == Color::Empty {
        seq![coord_at(size, i)] + vacant_from(grid, size, i + 1)
    } else {
        vacant_from(grid, size, i + 1)
    }
}

/// How many entries of the first `i` of `s` hold the color `c`.
pub open spec fn count_color_prefix(s: Seq<Color>, c: Color, i: int) -> int
    decreases i,
{
    if i <= 0 {
        0
    } else {
        count_color_prefix(s, c, i - 1) + if s[i - 1] == c {
            1int
        } else {
            0int
        }
    }
}

/// The owner of each point under area scoring: a stone belongs to its color,
/// an empty point to a color when its region touches only that color.
pub open spec fn spec_owner(grid: Seq<Color>, size: u8, p: int) -> Color {
    if grid[p] != Color::Empty {
        grid[p]
    } else {
        let region = chain_of(grid, size, p);
        let black = set_touches(grid, size, region, Color::Black);
        let white = set_touches(grid, size, region, Color::White);
        if black && !white {
            Color::Black
        } else if white && !black {
            Color::White
        } else {
            Color::Empty
        }
    }
}

/// The ownership of every point of the grid.
pub open spec fn spec_owner_map(grid: Seq<Color>, size: u8) -> Seq<Color> {
    Seq::new(grid.len(), |p: int| spec_owner(grid, size, p))
}

impl Board {
    /// The winner of the position: after a resignation, the other player;
    /// otherwise the side whose area (stones plus territory), with komi added
    /// for White, is larger.  `Empty` on an exact tie.
    pub open spec fn spec_winner(self) -> Color {
        if self.resigned.is_player() {
            self.resigned.spec_opposite()
        } else {
            let owners = spec_owner_map(self.grid@, self.size);
            let black = count_color_prefix(owners, Color::Black, owners.len() as int);
            let white = count_color_prefix(owners, Color::White, owners.len() as int);
            if 2 * black > 2 * white + self.komi2 {
                Color::Black
            } else if 2 * black < 2 * white + self.komi2 {
                Color::White
            } else {
                Color::Empty
            }
        }
    }

    /// The opening phase is over once at least half the points' worth of
    /// moves have been played.
    pub open spec fn spec_past_opening(self) -> bool {
        self.moves_played >= board_points(self.size) / 2
    }

    /// A pass makes sense as a search candidate only past the opening, and,
    /// when the aftermath is being played out, only for a side that is not
    /// behind: the positional winner is not the opponent (a tie counts as
    /// not behind).
    pub open spec fn spec_pass_allowed(self, color: Color, play_out_aftermath: bool) -> bool {
        self.spec_past_opening() && (self.spec_winner() != color.spec_opposite()
            || !play_out_aftermath)
    }

    /// The vacant points, in row-major order.
    pub fn vacant(&self) -> (r: Vec<Coord>)
        requires
            self.well_formed(),
        ensures
            r@ == vacant_from(self.grid@, self.size, 0),
    {
        let mut r: Vec<Coord> = Vec::new();
        let mut i: usize = 0;
        let s = self.size as usize;
        while i < self.grid.len()
            invariant
                self.well_formed(),
                i <= self.grid@.len(),
                s == self.size,
                r@ + vacant_from(self.grid@, self.size, i as int) =~= vacant_from(
                    self.grid@,
                    self.size,
                    0,
                ),
            decreases self.grid@.len() - i,
        {
            if self.grid[i] == Color::Empty {
                proof {
                    lemma_points_bound(self.size);
                    assert((i as int) % (self.size as int) < self.size && (i as int) / (
                    self.size as int) < self.size) by (nonlinear_arith)
                        requires
                            0 <= i < (self.size as int) * (self.size as int) && 1 <= self.size,
                    ;
                }
                let col = (i % s) as u8 + 1;
                let row = (i / s) as u8 + 1;
                proof {
                    assert(r@.push(coord_at(self.size, i as int)) + vacant_from(
                        self.grid@,
                        self.size,
                        i + 1,
                    ) =~= r@ + vacant_from(self.grid@, self.size, i as int));
                }
                r.push(Coord::new(col, row));
            }
            i += 1;
        }
        r
    }

    /// How many points are vacant.
    pub fn vacant_point_count(&self) -> (r: usize)
        requires
            self.well_formed(),
        ensures
            r == vacant_from(self.grid@, self.size, 0).len(),
    {
        let v = self.vacant();
        v.len()
    }

    /// The owner of every point, in grid order.
    pub fn owners(&self) -> (r: Vec<Color>)
        requires
            self.well_formed(),
        ensures
            r@ =~= spec_owner_map(self.grid@, self.size),
    {
        proof {
            lemma_points_bound(self.size);
        }
        let points = (self.size as usize) * (self.size as usize);
        let mut r: Vec<Color> = Vec::new();
        let mut p: usize = 0;
        while p < points
            invariant
                self.well_formed(),
                p <= points,
                points == board_points(self.size),
                r@.len() == p,
                forall|j: int| 0 <= j < p ==> r@[j] == spec_owner(self.grid@, self.size, j),
            decreases points - p,
        {
            let v = self.grid[p];
            if v != Color::Empty {
                r.push(v);
            } else {
                let marks = chain_marks(&self.grid, self.size, p);
                let black = marked_touches(&self.grid, self.size, &marks, Color::Black);
                let white = marked_touches(&self.grid, self.size, &marks, Color::White);
                if black && !white {
                    r.push(Color::Black);
                } else if white && !black {
                    r.push(Color::White);
                } else {
                    r.push(Color::Empty);
                }
            }
            p += 1;
        }
        r
    }

    /// The winner of the current position; the exec mirror of `spec_winner`.
    pub fn winner(&self) -> (r: Color)
        requires
            self.well_formed(),
        ensures
            r == self.spec_winner(),
    {
        match self.resigned {
            Color::Black => {
                return Color::White;
            },
            Color::White => {
                return Color::Black;
            },
            Color::Empty => {},
        }
        let owners = self.owners();
        let black = count_color(&owners, Color::Black);
        let white = count_color(&owners, Color::White);
        proof {
            lemma_points_bound(self.size);
        }
        let lhs: i64 = 2 * (black as i64);
        let rhs: i64 = 2 * (white as i64) + (self.komi2 as i64);
        if lhs > rhs {
            Color::Black
        } else if lhs < rhs {
            Color::White
        } else {
            Color::Empty
        }
    }

    /// Exec mirror of `spec_past_opening`.
    pub fn past_opening(&self) -> (r: bool)
        requires
            self.well_formed(),
        ensures
            r == self.spec_past_opening(),
    {
        proof {
            lemma_points_bound(self.size);
        }
        let points = (self.size as usize) * (self.size as usize);
        self.moves_played >= (points / 2) as u64
    }

    /// Exec mirror of `spec_pass_allowed`.
    pub fn pass_allowed(&self, color: Color, play_out_aftermath: bool) -> (r: bool)
        requires
            self.well_formed(),
        ensures
            r == self.spec_pass_allowed(color, play_out_aftermath),
    {
        self.past_opening() && (!play_out_aftermath || self.winner() != color.opposite())
    }

    /// A copy of the board whose every field is known equal to the original;
    /// handed to workers so each can mutate its own board.
    pub fn duplicate(&self) -> (r: Board)
        ensures
            r.size == self.size && r.komi2 == self.komi2 && r.ruleset == self.ruleset,
            r.grid@ == self.grid@,
            r.next == self.next,
            r.consecutive_passes == self.consecutive_passes,
            r.resigned == self.resigned,
            r.moves_played == self.moves_played,
            history_views(r.history@) =~= history_views(self.history@),
    {
        Board {
            size: self.size,
            komi2: self.komi2,
            ruleset: self.ruleset,
            grid: self.grid.clone(),
            next: self.next,
            consecutive_passes: self.consecutive_passes,
            resigned: self.resigned,
            moves_played: self.moves_played,
            history: self.history.clone(),
        }
    }
}

/// How many entries of `s` hold the color `c`.
pub fn count_color(s: &Vec<Color>, c: Color) -> (r: usize)
    ensures
        r == count_color_prefix(s@, c, s@.len() as int),
        r <= s@.len(),
{
    let mut r: usize = 0;
    let mut i: usize = 0;
    while i < s.len()
        invariant
            i <= s@.len(),
            r == count_color_prefix(s@, c, i as int),
            r <= i,
        decreases s@.len() - i,
    {
        if s[i] == c {
            r += 1;
        }
        i += 1;
    }
    r
}

/// Whether two grids hold the same colors.
fn grids_equal(a: &Vec<Color>, b: &Vec<Color>) -> (r: bool)
    ensures
        r == (a@ =~= b@),
{
    if a.len() != b.len() {
        return false;
    }
    let mut i: usize = 0;
    while i < a.len()
        invariant
            i <= a@.len(),
            a@.len() == b@.len(),
            forall|j: int| 0 <= j < i ==> a@[j] == b@[j],
        decreases a@.len() - i,
    {
        if a[i] != b[i] {
            return false;
        }
        i += 1;
    }
    true
}

} // verus!
