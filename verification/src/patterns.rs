//! 3x3 board patterns, used to bias move selection.  A pattern is a small
//! grid of match characters, compared against the eight neighbours of a
//! point; `expand` produces the twelve symmetry-and-color variants.

use vstd::prelude::*;

use crate::board::Board;
use crate::board::Color;
use crate::board::Coord;
use crate::board::board_points;

verus! {

/// A 3x3 pattern.  The characters mean: `X` black, `O` white, `.` empty,
/// `x` not black, `o` not white, `?` anything, and a space a point off the
/// board.
#[derive(Clone, Debug, PartialEq, Eq)]
pub struct Pattern {
    pub vec: Vec<Vec<char>>,
}

/// Three rows of three characters.
pub open spec fn pattern_wf(p: Pattern) -> bool {
    &&& p.vec@.len() == 3
    &&& forall|i: int| 0 <= i < 3 ==> (#[trigger] p.vec@[i])@.len() == 3
}

/// What one pattern character asks of a color.
pub open spec fn spec_char_matches(pc: char, color: Color) -> bool {
    if pc == 'X' {
        color == Color::Black
    } else if pc == 'O' {
        color == Color::White
    } else if pc == '?' {
        true
    } else if pc == 'x' {
        color != Color::Black
    } else if pc == 'o' {
        color != Color::White
    } else if pc == '.' {
        color == Color::Empty
    } else {
        false
    }
}

/// The color-swapped counterpart of a pattern character.
pub open spec fn spec_swap_char(c: char) -> char {
    if c == 'x' {
        'o'
    } else if c == 'X' {
        'O'
    } else if c == 'o' {
        'x'
    } else if c == 'O' {
        'X'
    } else {
        c
    }
}

/// The eight neighbours of a point, clockwise from the lower left; some may
/// lie off the board.
pub open spec fn spec_neighbours8(c: Coord) -> Seq<Coord> {
    seq![
        Coord { col: (c.col - 1) as u8, row: (c.row - 1) as u8 },
        Coord { col: c.col, row: (c.row - 1) as u8 },
        Coord { col: (c.col + 1) as u8, row: (c.row - 1) as u8 },
        Coord { col: (c.col - 1) as u8, row: c.row },
        Coord { col: (c.col + 1) as u8, row: c.row },
        Coord { col: (c.col - 1) as u8, row: (c.row + 1) as u8 },
        Coord { col: c.col, row: (c.row + 1) as u8 },
        Coord { col: (c.col + 1) as u8, row: (c.row + 1) as u8 },
    ]
}

impl Board {
    /// The color at a point known to be on the board.
    pub fn color(&self, coord: &Coord) -> (r: Color)
        requires
            self.well_formed(),
            coord.spec_is_inside(self.size),
        ensures
            r == self.grid@[coord.spec_index(self.size)],
    {
        let idx = coord.to_index(self.size);
        self.grid[idx]
    }

    /// The eight surrounding coordinates, without any bounds check: callers
    /// test `is_inside` themselves.
    pub fn neighbours8_unchecked(&self, coord: Coord) -> (r: Vec<Coord>)
        requires
            1 <= coord.col <= 254,
            1 <= coord.row <= 254,
        ensures
            r@ =~= spec_neighbours8(coord),
    {
        let mut r: Vec<Coord> = Vec::new();
        r.push(Coord::new(coord.col - 1, coord.row - 1));
        r.push(Coord::new(coord.col, coord.row - 1));
        r.push(Coord::new(coord.col + 1, coord.row - 1));
        r.push(Coord::new(coord.col - 1, coord.row));
        r.push(Coord::new(coord.col + 1, coord.row));
        r.push(Coord::new(coord.col - 1, coord.row + 1));
        r.push(Coord::new(coord.col, coord.row + 1));
        r.push(Coord::new(coord.col + 1, coord.row + 1));
        r
    }
}

/// Whether the pattern accepts one neighbour of `coord`: the matching
/// pattern character for an on-board neighbour, a space for one off the
/// board.
pub open spec fn spec_matches_at(p: Pattern, b: Board, coord: Coord, nc: Coord) -> bool {
    let row = 1 + coord.row - nc.row;
    let col = 1 - (coord.col - nc.col);
    let pc = p.vec@[row]@[col];
    if nc.spec_is_inside(b.size) {
        spec_char_matches(pc, b.grid@[nc.spec_index(b.size)])
    } else {
        pc == ' '
    }
}

/// Whether the pattern accepts every neighbour of `coord`.
pub open spec fn spec_matches(p: Pattern, b: Board, coord: Coord) -> bool {
    forall|k: int| 0 <= k < 8 ==> spec_matches_at(p, b, coord, #[trigger] spec_neighbours8(coord)[k])
}

/// Entry `(i, j)` of the `k`-th symmetry variant of a pattern: the pattern
/// itself, its three rotations, and its two mirrorings.
pub open spec fn rotation_entry(p: Pattern, k: int, i: int, j: int) -> char {
    if k == 0 {
        p.vec@[i]@[j]
    } else if k == 1 {
        p.vec@[2 - j]@[i]
    } else if k == 2 {
        p.vec@[2 - i]@[2 - j]
    } else if k == 3 {
        p.vec@[j]@[2 - i]
    } else if k == 4 {
        p.vec@[2 - i]@[j]
    } else {
        p.vec@[i]@[2 - j]
    }
}

impl Pattern {
    pub fn new(vec: Vec<Vec<char>>) -> (r: Pattern)
        ensures
            r.vec@ == vec@,
    {
        Pattern { vec }
    }

    /// Whether the pattern matches the board around `coord`.
    pub fn matches(&self, board: &Board, coord: &Coord) -> (r: bool)
        requires
            board.well_formed(),
            pattern_wf(*self),
            coord.spec_is_inside(board.size),
        ensures
            r == spec_matches(*self, *board, *coord),
    {
        let neighbours = board.neighbours8_unchecked(*coord);
        let mut k: usize = 0;
        while k < neighbours.len()
            invariant
                board.well_formed(),
                pattern_wf(*self),
                coord.spec_is_inside(board.size),
                neighbours@ =~= spec_neighbours8(*coord),
                k <= 8,
                forall|t: int|
                    0 <= t < k ==> spec_matches_at(
                        *self,
                        *board,
                        *coord,
                        #[trigger] spec_neighbours8(*coord)[t],
                    ),
            decreases 8 - k,
        {
            let nc = neighbours[k];
            if !self.matches_at(board, coord, &nc) {
                return false;
            }
            k += 1;
        }
        true
    }

    /// One neighbour's check; the exec mirror of `spec_matches_at`.
    fn matches_at(&self, board: &Board, coord: &Coord, neighbour: &Coord) -> (r: bool)
        requires
            board.well_formed(),
            pattern_wf(*self),
            coord.col - 1 <= neighbour.col <= coord.col + 1,
            coord.row - 1 <= neighbour.row <= coord.row + 1,
        ensures
            r == spec_matches_at(*self, *board, *coord, *neighbour),
    {
        let point_pattern = self.point_pattern_for(coord, neighbour);
        let is_inside = neighbour.is_inside(board.size);
        if is_inside {
            let color = board.color(neighbour);
            if point_pattern == 'X' {
                color == Color::Black
            } else if point_pattern == 'O' {
                color == Color::White
            } else if point_pattern == '?' {
                true
            } else if point_pattern == 'x' {
                color != Color::Black
            } else if point_pattern == 'o' {
                color != Color::White
            } else if point_pattern == '.' {
                color == Color::Empty
            } else {
                false
            }
        } else {
            point_pattern == ' '
        }
    }

    /// The pattern character that speaks about `neighbour`.
    fn point_pattern_for(&self, coord: &Coord, neighbour: &Coord) -> (r: char)
        requires
            pattern_wf(*self),
            coord.col - 1 <= neighbour.col <= coord.col + 1,
            coord.row - 1 <= neighbour.row <= coord.row + 1,
        ensures
            r == self.vec@[1 + coord.row - neighbour.row]@[1 - (coord.col - neighbour.col)],
    {
        let row = (1 + coord.row as isize - neighbour.row as isize) as usize;
        let col = (1 - (coord.col as isize - neighbour.col as isize)) as usize;
        self.vec[row][col]
    }

    /// The twelve variants of a pattern: the six symmetries first, then the
    /// color-swapped form of each, entry for entry.
    pub fn expand(&self) -> (r: Vec<Pattern>)
        requires
            pattern_wf(*self),
        ensures
            r@.len() == 12,
            forall|k: int| 0 <= k < 12 ==> pattern_wf(#[trigger] r@[k]),
            forall|k: int, i: int, j: int|
                0 <= k < 6 && 0 <= i < 3 && 0 <= j < 3 ==> (#[trigger] r@[k].vec@[i]@[j])
                    == rotation_entry(*self, k, i, j),
            forall|k: int, i: int, j: int|
                6 <= k < 12 && 0 <= i < 3 && 0 <= j < 3 ==> (#[trigger] r@[k].vec@[i]@[j])
                    == spec_swap_char(rotation_entry(*self, k - 6, i, j)),
    {
        let rotations = self.rotated();
        let swaps = self.swapped();
        let mut r: Vec<Pattern> = Vec::new();
        let mut i: usize = 0;
        while i < rotations.len()
            invariant
                i <= rotations@.len(),
                rotations@.len() == 6,
                forall|k: int| 0 <= k < 6 ==> pattern_wf(#[trigger] rotations@[k]),
                forall|k: int, a: int, b: int|
                    0 <= k < 6 && 0 <= a < 3 && 0 <= b < 3 ==> (#[trigger] rotations@[k].vec@[a]@[b])
                        == rotation_entry(*self, k, a, b),
                r@.len() == i,
                forall|k: int| 0 <= k < i ==> pattern_wf(#[trigger] r@[k]),
                forall|k: int, a: int, b: int|
                    0 <= k < i && 0 <= a < 3 && 0 <= b < 3 ==> (#[trigger] r@[k].vec@[a]@[b])
                        == rotation_entry(*self, k, a, b),
            decreases rotations@.len() - i,
        {
            r.push(rotations[i].duplicate());
            i += 1;
        }
        let mut j: usize = 0;
        while j < swaps.len()
            invariant
                j <= swaps@.len(),
                swaps@.len() == 6,
                forall|k: int| 0 <= k < 6 ==> pattern_wf(#[trigger] swaps@[k]),
                forall|k: int, a: int, b: int|
                    0 <= k < 6 && 0 <= a < 3 && 0 <= b < 3 ==> (#[trigger] swaps@[k].vec@[a]@[b])
                        == spec_swap_char(rotation_entry(*self, k, a, b)),
                r@.len() == 6 + j,
                forall|k: int| 0 <= k < r@.len() ==> pattern_wf(#[trigger] r@[k]),
                forall|k: int, a: int, b: int|
                    0 <= k < 6 && 0 <= a < 3 && 0 <= b < 3 ==> (#[trigger] r@[k].vec@[a]@[b])
                        == rotation_entry(*self, k, a, b),
                forall|k: int, a: int, b: int|
                    6 <= k < 6 + j && 0 <= a < 3 && 0 <= b < 3 ==> (#[trigger] r@[k].vec@[a]@[b])
                        == spec_swap_char(rotation_entry(*self, k - 6, a, b)),
            decreases swaps@.len() - j,
        {
            r.push(swaps[j].duplicate());
            j += 1;
        }
        r
    }

    /// A copy whose rows read the same as the original's (the derived
    /// clone has no contract).
    fn duplicate(&self) -> (r: Pattern)
        requires
            pattern_wf(*self),
        ensures
            pattern_wf(r),
            forall|k: int| 0 <= k < 3 ==> (#[trigger] r.vec@[k])@ == self.vec@[k]@,
            forall|a: int, b: int|
                0 <= a < 3 && 0 <= b < 3 ==> (#[trigger] r.vec@[a]@[b]) == self.vec@[a]@[b],
    {
        let mut vec: Vec<Vec<char>> = Vec::new();
        let mut i: usize = 0;
        while i < 3
            invariant
                pattern_wf(*self),
                i <= 3,
                vec@.len() == i,
                forall|k: int| 0 <= k < i ==> vec@[k]@ == (#[trigger] self.vec@[k])@,
            decreases 3 - i,
        {
            let mut row: Vec<char> = Vec::new();
            let mut j: usize = 0;
            while j < 3
                invariant
                    pattern_wf(*self),
                    i < 3,
                    j <= 3,
                    row@.len() == j,
                    forall|k: int| 0 <= k < j ==> row@[k] == self.vec@[i as int]@[k],
                decreases 3 - j,
            {
                row.push(self.vec[i][j]);
                j += 1;
            }
            proof {
                assert(row@ =~= self.vec@[i as int]@);
            }
            vec.push(row);
            i += 1;
        }
        proof {
            assert forall|k: int| 0 <= k < 3 implies (#[trigger] vec@[k])@.len() == 3 by {
                assert(vec@[k]@ == self.vec@[k]@);
            }
        }
        Pattern { vec }
    }

    /// The pattern and its rotations and mirrorings, the pattern itself
    /// first; entry for entry, variant `k` holds `rotation_entry(self, k)`.
    pub fn rotated(&self) -> (r: Vec<Pattern>)
        requires
            pattern_wf(*self),
        ensures
            r@.len() == 6,
            forall|k: int| 0 <= k < 6 ==> pattern_wf(#[trigger] r@[k]),
            forall|k: int, i: int, j: int|
                0 <= k < 6 && 0 <= i < 3 && 0 <= j < 3 ==> (#[trigger] r@[k].vec@[i]@[j])
                    == rotation_entry(*self, k, i, j),
    {
        let mut r: Vec<Pattern> = Vec::new();
        r.push(self.duplicate());
        r.push(self.rotated90());
        r.push(self.rotated180());
        r.push(self.rotated270());
        r.push(self.horizontally_flipped());
        r.push(self.vertically_flipped());
        r
    }

    /// The color-swapped form of each rotation: entry for entry, variant
    /// `k` holds the swapped `rotation_entry(self, k)`.
    pub fn swapped(&self) -> (r: Vec<Pattern>)
        requires
            pattern_wf(*self),
        ensures
            r@.len() == 6,
            forall|k: int| 0 <= k < 6 ==> pattern_wf(#[trigger] r@[k]),
            forall|k: int, i: int, j: int|
                0 <= k < 6 && 0 <= i < 3 && 0 <= j < 3 ==> (#[trigger] r@[k].vec@[i]@[j])
                    == spec_swap_char(rotation_entry(*self, k, i, j)),
    {
        let rotations = self.rotated();
        let mut r: Vec<Pattern> = Vec::new();
        let mut i: usize = 0;
        while i < rotations.len()
            invariant
                i <= rotations@.len(),
                rotations@.len() == 6,
                forall|k: int| 0 <= k < 6 ==> pattern_wf(#[trigger] rotations@[k]),
                forall|k: int, a: int, b: int|
                    0 <= k < 6 && 0 <= a < 3 && 0 <= b < 3 ==> (#[trigger] rotations@[k].vec@[a]@[b])
                        == rotation_entry(*self, k, a, b),
                r@.len() == i,
                forall|k: int| 0 <= k < i ==> pattern_wf(#[trigger] r@[k]),
                forall|k: int, a: int, b: int|
                    0 <= k < i && 0 <= a < 3 && 0 <= b < 3 ==> (#[trigger] r@[k].vec@[a]@[b])
                        == spec_swap_char(rotation_entry(*self, k, a, b)),
            decreases rotations@.len() - i,
        {
            let swapped = rotations[i].swap();
            proof {
                assert forall|a: int, b: int| 0 <= a < 3 && 0 <= b < 3 implies (
                #[trigger] swapped.vec@[a]@[b]) == spec_swap_char(
                    rotation_entry(*self, i as int, a, b),
                ) by {
                    assert(swapped.vec@[a]@[b] == spec_swap_char(rotations@[i as int].vec@[a]@[b]));
                    assert(rotations@[i as int].vec@[a]@[b] == rotation_entry(*self, i as int, a, b));
                }
            }
            r.push(swapped);
            i += 1;
        }
        r
    }

    /// Every character color-swapped.
    pub fn swap(&self) -> (r: Pattern)
        requires
            pattern_wf(*self),
        ensures
            pattern_wf(r),
            forall|i: int, j: int|
                0 <= i < 3 && 0 <= j < 3 ==> r.vec@[i]@[j] == spec_swap_char(
                    #[trigger] self.vec@[i]@[j],
                ),
    {
        let mut vec: Vec<Vec<char>> = Vec::new();
        let mut i: usize = 0;
        while i < 3
            invariant
                pattern_wf(*self),
                i <= 3,
                vec@.len() == i,
                forall|k: int| 0 <= k < i ==> (#[trigger] vec@[k])@.len() == 3,
                forall|k: int, j: int|
                    0 <= k < i && 0 <= j < 3 ==> vec@[k]@[j] == spec_swap_char(
                        #[trigger] self.vec@[k]@[j],
                    ),
            decreases 3 - i,
        {
            let mut row: Vec<char> = Vec::new();
            let mut j: usize = 0;
            while j < 3
                invariant
                    pattern_wf(*self),
                    i < 3,
                    j <= 3,
                    row@.len() == j,
                    forall|k: int|
                        0 <= k < j ==> row@[k] == spec_swap_char(#[trigger] self.vec@[i as int]@[k]),
                decreases 3 - j,
            {
                row.push(self.swap_char(self.vec[i][j]));
                j += 1;
            }
            vec.push(row);
            i += 1;
        }
        Pattern { vec }
    }

    /// The color-swapped counterpart of one character.
    pub fn swap_char(&self, c: char) -> (r: char)
        ensures
            r == spec_swap_char(c),
    {
        if c == 'x' {
            'o'
        } else if c == 'X' {
            'O'
        } else if c == 'o' {
            'x'
        } else if c == 'O' {
            'X'
        } else {
            c
        }
    }

    /// Rotation a quarter turn: entry `(i, j)` comes from `(2 - j, i)`.
    pub fn rotated90(&self) -> (r: Pattern)
        requires
            pattern_wf(*self),
        ensures
            pattern_wf(r),
            forall|i: int, j: int|
                0 <= i < 3 && 0 <= j < 3 ==> r.vec@[i]@[j] == #[trigger] self.vec@[2 - j]@[i],
    {
        let mut vec: Vec<Vec<char>> = Vec::new();
        let mut row0: Vec<char> = Vec::new();
        row0.push(self.vec[2][0]);
        row0.push(self.vec[1][0]);
        row0.push(self.vec[0][0]);
        let mut row1: Vec<char> = Vec::new();
        row1.push(self.vec[2][1]);
        row1.push(self.vec[1][1]);
        row1.push(self.vec[0][1]);
        let mut row2: Vec<char> = Vec::new();
        row2.push(self.vec[2][2]);
        row2.push(self.vec[1][2]);
        row2.push(self.vec[0][2]);
        vec.push(row0);
        vec.push(row1);
        vec.push(row2);
        Pattern { vec }
    }

    /// Rotation a half turn: entry `(i, j)` comes from `(2 - i, 2 - j)`.
    pub fn rotated180(&self) -> (r: Pattern)
        requires
            pattern_wf(*self),
        ensures
            pattern_wf(r),
            forall|i: int, j: int|
                0 <= i < 3 && 0 <= j < 3 ==> r.vec@[i]@[j] == #[trigger] self.vec@[2 - i]@[2 - j],
    {
        let mut vec: Vec<Vec<char>> = Vec::new();
        let mut row0: Vec<char> = Vec::new();
        row0.push(self.vec[2][2]);
        row0.push(self.vec[2][1]);
        row0.push(self.vec[2][0]);
        let mut row1: Vec<char> = Vec::new();
        row1.push(self.vec[1][2]);
        row1.push(self.vec[1][1]);
        row1.push(self.vec[1][0]);
        let mut row2: Vec<char> = Vec::new();
        row2.push(self.vec[0][2]);
        row2.push(self.vec[0][1]);
        row2.push(self.vec[0][0]);
        vec.push(row0);
        vec.push(row1);
        vec.push(row2);
        Pattern { vec }
    }

    /// Rotation three quarter turns: entry `(i, j)` comes from `(j, 2 - i)`.
    pub fn rotated270(&self) -> (r: Pattern)
        requires
            pattern_wf(*self),
        ensures
            pattern_wf(r),
            forall|i: int, j: int|
                0 <= i < 3 && 0 <= j < 3 ==> r.vec@[i]@[j] == #[trigger] self.vec@[j]@[2 - i],
    {
        let mut vec: Vec<Vec<char>> = Vec::new();
        let mut row0: Vec<char> = Vec::new();
        row0.push(self.vec[0][2]);
        row0.push(self.vec[1][2]);
        row0.push(self.vec[2][2]);
        let mut row1: Vec<char> = Vec::new();
        row1.push(self.vec[0][1]);
        row1.push(self.vec[1][1]);
        row1.push(self.vec[2][1]);
        let mut row2: Vec<char> = Vec::new();
        row2.push(self.vec[0][0]);
        row2.push(self.vec[1][0]);
        row2.push(self.vec[2][0]);
        vec.push(row0);
        vec.push(row1);
        vec.push(row2);
        Pattern { vec }
    }

    /// The rows top to bottom: entry `(i, j)` comes from `(2 - i, j)`.
    pub fn horizontally_flipped(&self) -> (r: Pattern)
        requires
            pattern_wf(*self),
        ensures
            pattern_wf(r),
            forall|i: int, j: int|
                0 <= i < 3 && 0 <= j < 3 ==> r.vec@[i]@[j] == #[trigger] self.vec@[2 - i]@[j],
    {
        let mut vec: Vec<Vec<char>> = Vec::new();
        let mut row0: Vec<char> = Vec::new();
        row0.push(self.vec[2][0]);
        row0.push(self.vec[2][1]);
        row0.push(self.vec[2][2]);
        let mut row1: Vec<char> = Vec::new();
        row1.push(self.vec[1][0]);
        row1.push(self.vec[1][1]);
        row1.push(self.vec[1][2]);
        let mut row2: Vec<char> = Vec::new();
        row2.push(self.vec[0][0]);
        row2.push(self.vec[0][1]);
        row2.push(self.vec[0][2]);
        vec.push(row0);
        vec.push(row1);
        vec.push(row2);
        Pattern { vec }
    }

    /// The columns right to left: entry `(i, j)` comes from `(i, 2 - j)`.
    pub fn vertically_flipped(&self) -> (r: Pattern)
        requires
            pattern_wf(*self),
        ensures
            pattern_wf(r),
            forall|i: int, j: int|
                0 <= i < 3 && 0 <= j < 3 ==> r.vec@[i]@[j] == #[trigger] self.vec@[i]@[2 - j],
    {
        let mut vec: Vec<Vec<char>> = Vec::new();
        let mut row0: Vec<char> = Vec::new();
        row0.push(self.vec[0][2]);
        row0.push(self.vec[0][1]);
        row0.push(self.vec[0][0]);
        let mut row1: Vec<char> = Vec::new();
        row1.push(self.vec[1][2]);
        row1.push(self.vec[1][1]);
        row1.push(self.vec[1][0]);
        let mut row2: Vec<char> = Vec::new();
        row2.push(self.vec[2][2]);
        row2.push(self.vec[2][1]);
        row2.push(self.vec[2][0]);
        vec.push(row0);
        vec.push(row1);
        vec.push(row2);
        Pattern { vec }
    }
}

} // verus!
