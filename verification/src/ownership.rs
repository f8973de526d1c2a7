//! Per-point ownership statistics: across many playouts, how often each
//! point ended up black, white or neutral.  A small prior keeps a point
//! "undecided" until enough samples agree, and a point is assigned to a
//! color only when that color's share exceeds nine tenths of the samples.

use vstd::prelude::*;

use crate::board::Color;
use crate::board::Coord;
use crate::board::board_points;
use crate::board::lemma_points_bound;
use crate::score::Score;

verus! {


/// Counters saturate here, far below `u64::MAX`, so the ownership test's
/// arithmetic can never overflow.
pub const OWNER_CAP: u64 = 0x0fff_ffff_ffff_ffff;

/// The prior seeded into every point: one black win, one white win and a
/// hundred neutral samples, so a barely sampled point stays undecided.
pub open spec fn default_triple() -> (u64, u64, u64) {
    (1, 1, 100)
}

/// One more sample of `c` at a point, saturating at `OWNER_CAP`.
pub open spec fn bump(t: (u64, u64, u64), c: Color) -> (u64, u64, u64) {
    match c {
        Color::Black => (if t.0 < OWNER_CAP {
            (t.0 + 1) as u64
        } else {
            t.0
        }, t.1, t.2),
        Color::White => (t.0, if t.1 < OWNER_CAP {
            (t.1 + 1) as u64
        } else {
            t.1
        }, t.2),
        Color::Empty => (t.0, t.1, if t.2 < OWNER_CAP {
            (t.2 + 1) as u64
        } else {
            t.2
        }),
    }
}

/// The owner a tally names: a color whose share of the samples exceeds nine
/// tenths, else undecided.
pub open spec fn spec_triple_owner(t: (u64, u64, u64)) -> Color {
    let largest = if t.0 >= t.1 {
        t.0
    } else {
        t.1
    };
    if 10 * largest > 9 * (t.0 + t.1 + t.2) {
        if t.0 > t.1 {
            Color::Black
        } else {
            Color::White
        }
    } else {
        Color::Empty
    }
}

/// Win/loss/neutral tallies for every point of the board.
#[derive(Clone, Debug)]
pub struct OwnershipStatistics {
    pub size: u8,
    pub stats: Vec<(u64, u64, u64)>,
}

impl OwnershipStatistics {
    /// One tally per point, every counter within the cap.
    pub open spec fn well_formed(self) -> bool {
        &&& 1 <= self.size <= 25
        &&& self.stats@.len() == board_points(self.size)
        &&& forall|i: int|
            0 <= i < self.stats@.len() ==> ((#[trigger] self.stats@[i]).0 <= OWNER_CAP
                && self.stats@[i].1 <= OWNER_CAP && self.stats@[i].2 <= OWNER_CAP)
    }

    /// Fresh statistics for a board size, every point at the prior.
    pub fn new(size: u8) -> (r: OwnershipStatistics)
        requires
            1 <= size <= 25,
        ensures
            r.well_formed(),
            r.size == size,
            forall|i: int| 0 <= i < r.stats@.len() ==> (#[trigger] r.stats@[i]) == default_triple(),
    {
        let mut r = OwnershipStatistics { size, stats: Vec::new() };
        r.setup();
        r
    }

    /// Reset every point to the prior.
    pub fn setup(&mut self)
        requires
            1 <= old(self).size <= 25,
        ensures
            final(self).well_formed(),
            final(self).size == old(self).size,
            forall|i: int|
                0 <= i < final(self).stats@.len() ==> (#[trigger] final(self).stats@[i])
                    == default_triple(),
    {
        proof {
            lemma_points_bound(self.size);
        }
        let points = (self.size as usize) * (self.size as usize);
        let mut stats: Vec<(u64, u64, u64)> = Vec::new();
        let mut i: usize = 0;
        while i < points
            invariant
                i <= points,
                stats@.len() == i,
                forall|j: int| 0 <= j < i ==> (#[trigger] stats@[j]) == default_triple(),
            decreases points - i,
        {
            stats.push(self.default_entry());
            i += 1;
        }
        self.stats = stats;
    }

    /// The prior tally.
    pub fn default_entry(&self) -> (r: (u64, u64, u64))
        ensures
            r == default_triple(),
    {
        (1, 1, 100)
    }

    /// Fold one playout's final ownership into the tallies, point for point.
    pub fn merge(&mut self, score: &Score)
        requires
            old(self).well_formed(),
            score.owner@.len() == board_points(old(self).size),
        ensures
            final(self).well_formed(),
            final(self).size == old(self).size,
            final(self).stats@.len() == old(self).stats@.len(),
            forall|i: int|
                0 <= i < final(self).stats@.len() ==> (#[trigger] final(self).stats@[i]) == bump(
                    old(self).stats@[i],
                    score.owner@[i],
                ),
    {
        proof {
            lemma_points_bound(self.size);
        }
        let points = (self.size as usize) * (self.size as usize);
        let owner = score.owner();
        let mut stats: Vec<(u64, u64, u64)> = Vec::new();
        let mut i: usize = 0;
        while i < points
            invariant
                self.well_formed(),
                i <= points,
                points == board_points(self.size),
                owner@ == score.owner@,
                score.owner@.len() == board_points(self.size),
                stats@.len() == i,
                forall|j: int|
                    0 <= j < i ==> (#[trigger] stats@[j]) == bump(
                        self.stats@[j],
                        score.owner@[j],
                    ),
                forall|j: int|
                    0 <= j < i ==> ((#[trigger] stats@[j]).0 <= OWNER_CAP && stats@[j].1
                        <= OWNER_CAP && stats@[j].2 <= OWNER_CAP),
            decreases points - i,
        {
            let (b, w, e) = self.stats[i];
            let t = match owner[i] {
                Color::Black => (if b < OWNER_CAP {
                    b + 1
                } else {
                    b
                }, w, e),
                Color::White => (b, if w < OWNER_CAP {
                    w + 1
                } else {
                    w
                }, e),
                Color::Empty => (b, w, if e < OWNER_CAP {
                    e + 1
                } else {
                    e
                }),
            };
            stats.push(t);
            i += 1;
        }
        self.stats = stats;
    }

    /// The color a point is assigned to, or `Empty` while it is undecided.
    /// A point off the board answers as the prior does.
    pub fn owner(&self, coord: &Coord) -> (r: Color)
        requires
            self.well_formed(),
        ensures
            r == if coord.spec_is_inside(self.size) {
                spec_triple_owner(self.stats@[coord.spec_index(self.size)])
            } else {
                spec_triple_owner(default_triple())
            },
    {
        let (b, w, e) = if coord.is_inside(self.size) {
            let idx = coord.to_index(self.size);
            self.stats[idx]
        } else {
            self.default_entry()
        };
        let largest = if b >= w {
            b
        } else {
            w
        };
        let lhs: u128 = 10 * (largest as u128);
        let rhs: u128 = 9 * ((b as u128) + (w as u128) + (e as u128));
        if lhs > rhs {
            if b > w {
                Color::Black
            } else {
                Color::White
            }
        } else {
            Color::Empty
        }
    }

    /// The assigned owner of every point, in grid order; the raw material
    /// for the board-control overlay the protocol layer prints.
    pub fn owner_map(&self) -> (r: Vec<Color>)
        requires
            self.well_formed(),
        ensures
            r@.len() == board_points(self.size),
            forall|i: int|
                0 <= i < r@.len() ==> (#[trigger] r@[i]) == spec_triple_owner(self.stats@[i]),
    {
        proof {
            lemma_points_bound(self.size);
        }
        let points = (self.size as usize) * (self.size as usize);
        let mut r: Vec<Color> = Vec::new();
        let mut i: usize = 0;
        while i < points
            invariant
                self.well_formed(),
                i <= points,
                points == board_points(self.size),
                r@.len() == i,
                forall|j: int|
                    0 <= j < i ==> (#[trigger] r@[j]) == spec_triple_owner(self.stats@[j]),
            decreases points - i,
        {
            let (b, w, e) = self.stats[i];
            let largest = if b >= w {
                b
            } else {
                w
            };
            let lhs: u128 = 10 * (largest as u128);
            let rhs: u128 = 9 * ((b as u128) + (w as u128) + (e as u128));
            if lhs > rhs {
                if b > w {
                    r.push(Color::Black);
                } else {
                    r.push(Color::White);
                }
            } else {
                r.push(Color::Empty);
            }
            i += 1;
        }
        r
    }
}

/// The GTP names of the points from index `i` on whose tally assigns them
/// to `c`, each preceded by a space, in grid order.
pub open spec fn gfx_points(stats: Seq<(u64, u64, u64)>, size: u8, c: Color, i: int) -> Seq<char>
    decreases stats.len() - i,
{
    if i < 0 || i >= stats.len() {
        Seq::empty()
    } else {
        (if spec_triple_owner(stats[i]) == c {
            seq![' '] + crate::gtp::spec_vertex_chars(
                crate::board::coord_at(size, i).col,
                crate::board::coord_at(size, i).row,
            )
        } else {
            Seq::<char>::empty()
        }) + gfx_points(stats, size, c, i + 1)
    }
}

impl OwnershipStatistics {
    /// The board-control overlay for graphical frontends: the header lines,
    /// then exactly the points the tallies assign to each color, named in
    /// GTP coordinates, in grid order.
    pub fn gfx(&self) -> (r: String)
        requires
            self.well_formed(),
        ensures
            r@ == ("gogui-gfx:\nCLEAR\nBLACK")@ + gfx_points(
                self.stats@,
                self.size,
                Color::Black,
                0,
            ) + ("\nWHITE")@ + gfx_points(self.stats@, self.size, Color::White, 0) + ("\n")@,
    {
        proof {
            lemma_points_bound(self.size);
        }
        let mut black_points = String::new();
        let mut white_points = String::new();
        let size = self.size;
        let s = size as usize;
        let points = s * s;
        let mut idx: usize = 0;
        while idx < points
            invariant
                self.well_formed(),
                size == self.size,
                s == size,
                points == board_points(size),
                idx <= points,
                black_points@ + gfx_points(self.stats@, size, Color::Black, idx as int)
                    == gfx_points(self.stats@, size, Color::Black, 0),
                white_points@ + gfx_points(self.stats@, size, Color::White, idx as int)
                    == gfx_points(self.stats@, size, Color::White, 0),
            decreases points - idx,
        {
            proof {
                assert((idx as int) % (size as int) < size && (idx as int) / (size as int)
                    < size) by (nonlinear_arith)
                    requires
                        0 <= idx < (size as int) * (size as int) && 1 <= size,
                ;
            }
            let col = (idx % s) as u8 + 1;
            let row = (idx / s) as u8 + 1;
            let coord = Coord::new(col, row);
            proof {
                assert(coord == crate::board::coord_at(size, idx as int));
                assert(coord.spec_index(size) == idx) by (nonlinear_arith)
                    requires
                        coord.col == (idx as int) % (size as int) + 1 && coord.row == (idx as int)
                            / (size as int) + 1 && coord.spec_index(size) == (coord.row - 1) * (
                        size as int) + (coord.col - 1) && 0 <= idx < (size as int) * (size as int)
                            && 1 <= size,
                ;
                reveal_strlit(" ");
                assert((" ")@ =~= seq![' ']);
            }
            let owner = self.owner(&coord);
            match owner {
                Color::Black => {
                    let ghost before = black_points@;
                    black_points.append(" ");
                    let v = crate::gtp::vertex_to_gtp(col, row);
                    black_points.append(v.as_str());
                    proof {
                        assert(black_points@ =~= before + (seq![' ']
                            + crate::gtp::spec_vertex_chars(col, row)));
                        assert(black_points@ + gfx_points(self.stats@, size, Color::Black, idx + 1)
                            =~= before + gfx_points(self.stats@, size, Color::Black, idx as int));
                    }
                },
                Color::White => {
                    let ghost before = white_points@;
                    white_points.append(" ");
                    let v = crate::gtp::vertex_to_gtp(col, row);
                    white_points.append(v.as_str());
                    proof {
                        assert(white_points@ =~= before + (seq![' ']
                            + crate::gtp::spec_vertex_chars(col, row)));
                        assert(white_points@ + gfx_points(self.stats@, size, Color::White, idx + 1)
                            =~= before + gfx_points(self.stats@, size, Color::White, idx as int));
                    }
                },
                Color::Empty => {
                    proof {
                        assert(black_points@ + gfx_points(self.stats@, size, Color::Black, idx + 1)
                            =~= black_points@ + gfx_points(
                            self.stats@,
                            size,
                            Color::Black,
                            idx as int,
                        ));
                        assert(white_points@ + gfx_points(self.stats@, size, Color::White, idx + 1)
                            =~= white_points@ + gfx_points(
                            self.stats@,
                            size,
                            Color::White,
                            idx as int,
                        ));
                    }
                },
            }
            idx += 1;
        }
        proof {
            assert(gfx_points(self.stats@, size, Color::Black, points as int)
                =~= Seq::<char>::empty());
            assert(gfx_points(self.stats@, size, Color::White, points as int)
                =~= Seq::<char>::empty());
            assert(black_points@ =~= gfx_points(self.stats@, size, Color::Black, 0));
            assert(white_points@ =~= gfx_points(self.stats@, size, Color::White, 0));
        }
        let mut out = String::from_str("gogui-gfx:\nCLEAR\nBLACK");
        out.append(black_points.as_str());
        out.append("\nWHITE");
        out.append(white_points.as_str());
        out.append("\n");
        proof {
            assert(out@ =~= ("gogui-gfx:\nCLEAR\nBLACK")@ + gfx_points(
                self.stats@,
                self.size,
                Color::Black,
                0,
            ) + ("\nWHITE")@ + gfx_points(self.stats@, self.size, Color::White, 0) + ("\n")@);
        }
        out
    }
}

} // verus!
