//! Area scoring: who owns each point, how many points each side holds, and
//! which side the komi-adjusted count favors.

use vstd::prelude::*;

use crate::board::Board;
use crate::board::Color;
use crate::board::count_color_prefix;
use crate::board::spec_owner_map;

verus! {

/// The score of a position: the owner of every point and the two area
/// counts, with komi carried along in half points.
#[derive(Clone, Debug)]
pub struct Score {
    pub owner: Vec<Color>,
    pub black_stones: usize,
    pub white_stones: usize,
    pub komi2: i32,
}

impl Score {
    /// The counts agree with the owner vector and stay small enough for the
    /// comparison arithmetic.
    pub open spec fn well_formed(self) -> bool {
        &&& self.black_stones == count_color_prefix(
            self.owner@,
            Color::Black,
            self.owner@.len() as int,
        )
        &&& self.white_stones == count_color_prefix(
            self.owner@,
            Color::White,
            self.owner@.len() as int,
        )
        &&& self.black_stones <= self.owner@.len()
        &&& self.white_stones <= self.owner@.len()
        &&& self.owner@.len() <= 255 * 255
    }

    /// The color the score favors: `Empty` on an exact tie.
    pub open spec fn spec_color(self) -> Color {
        if 2 * self.black_stones > 2 * self.white_stones + self.komi2 {
            Color::Black
        } else if 2 * self.black_stones < 2 * self.white_stones + self.komi2 {
            Color::White
        } else {
            Color::Empty
        }
    }

    pub fn color(&self) -> (r: Color)
        requires
            self.well_formed(),
        ensures
            r == self.spec_color(),
    {
        let lhs: i64 = 2 * (self.black_stones as i64);
        let rhs: i64 = 2 * (self.white_stones as i64) + (self.komi2 as i64);
        if lhs > rhs {
            Color::Black
        } else if lhs < rhs {
            Color::White
        } else {
            Color::Empty
        }
    }

    /// The owner of each point, in grid order.
    pub fn owner(&self) -> (r: &Vec<Color>)
        ensures
            r@ == self.owner@,
    {
        &self.owner
    }
}

impl Board {
    /// Score the current position.
    pub fn score(&self) -> (r: Score)
        requires
            self.well_formed(),
        ensures
            r.well_formed(),
            r.owner@ =~= spec_owner_map(self.grid@, self.size),
            r.komi2 == self.komi2,
    {
        proof {
            crate::board::lemma_points_bound(self.size);
        }
        let owner = self.owners();
        let black_stones = crate::board::count_color(&owner, Color::Black);
        let white_stones = crate::board::count_color(&owner, Color::White);
        Score { owner, black_stones, white_stones, komi2: self.komi2 }
    }
}

} // verus!
