//! The time control's bookkeeping: main time and byo-yomi allotments, the
//! updates the protocol reports, and the per-move budget the search is
//! given.  The clock itself ticks outside the library.

use vstd::prelude::*;

use crate::game::Game;

verus! {

/// Times are in milliseconds.
#[derive(Clone, Copy, Debug, PartialEq, Eq, Structural)]
pub struct Timer {
    pub main_time: i64,
    pub byo_time: i64,
    pub byo_stones: i32,
    pub main_time_left: i64,
    pub byo_time_left: i64,
    pub byo_stones_left: i32,
}

impl Timer {
    /// No time settings yet: everything at zero.
    pub fn new() -> (r: Timer)
        ensures
            r == (Timer {
                main_time: 0,
                byo_time: 0,
                byo_stones: 0,
                main_time_left: 0,
                byo_time_left: 0,
                byo_stones_left: 0,
            }),
    {
        Timer {
            main_time: 0,
            byo_time: 0,
            byo_stones: 0,
            main_time_left: 0,
            byo_time_left: 0,
            byo_stones_left: 0,
        }
    }

    /// Install time settings given in seconds, and start from them.
    pub fn setup(&mut self, main_s: i64, byo_s: i64, stones: i32)
        requires
            0 <= main_s <= 0x20_0000_0000_0000,
            0 <= byo_s <= 0x20_0000_0000_0000,
        ensures
            final(self).main_time == main_s * 1000,
            final(self).byo_time == byo_s * 1000,
            final(self).byo_stones == stones,
            final(self).main_time_left == main_s * 1000,
            final(self).byo_time_left == byo_s * 1000,
            final(self).byo_stones_left == stones,
    {
        self.main_time = main_s * 1000;
        self.byo_time = byo_s * 1000;
        self.byo_stones = stones;
        self.reset();
    }

    /// Back to the installed settings (a new game is starting).
    pub fn reset(&mut self)
        ensures
            final(self).main_time == old(self).main_time,
            final(self).byo_time == old(self).byo_time,
            final(self).byo_stones == old(self).byo_stones,
            final(self).main_time_left == old(self).main_time,
            final(self).byo_time_left == old(self).byo_time,
            final(self).byo_stones_left == old(self).byo_stones,
    {
        self.main_time_left = self.main_time;
        self.byo_time_left = self.byo_time;
        self.byo_stones_left = self.byo_stones;
    }

    /// A `time_left` report: with no stones the remaining time is main
    /// time; with stones we are in byo-yomi and main time is spent.
    pub fn update(&mut self, time_s: i64, stones: i32)
        requires
            0 <= time_s <= 0x20_0000_0000_0000,
        ensures
            stones == 0 ==> (final(self).main_time_left == time_s * 1000 && final(self).byo_time_left == old(self).byo_time_left),
            stones != 0 ==> (final(self).main_time_left == 0 && final(self).byo_time_left == time_s
                * 1000 && final(self).byo_stones_left == stones),
    {
        if stones == 0 {
            self.main_time_left = time_s * 1000;
        } else {
            self.main_time_left = 0;
            self.byo_time_left = time_s * 1000;
            self.byo_stones_left = stones;
        }
    }

    pub fn main_time(&self) -> (r: i64)
        ensures
            r == self.main_time,
    {
        self.main_time
    }

    pub fn byo_time(&self) -> (r: i64)
        ensures
            r == self.byo_time,
    {
        self.byo_time
    }

    pub fn byo_stones(&self) -> (r: i32)
        ensures
            r == self.byo_stones,
    {
        self.byo_stones
    }

    pub fn main_time_left(&self) -> (r: i64)
        ensures
            r == self.main_time_left,
    {
        self.main_time_left
    }

    pub fn byo_time_left(&self) -> (r: i64)
        ensures
            r == self.byo_time_left,
    {
        self.byo_time_left
    }

    pub fn byo_stones_left(&self) -> (r: i32)
        ensures
            r == self.byo_stones_left,
    {
        self.byo_stones_left
    }

    /// What one move's thinking should be given, in milliseconds: a share
    /// of the remaining main time spread over the moves the position still
    /// expects, else an even share of the byo-yomi period.
    pub open spec fn spec_budget(self, expected_moves: int) -> int {
        if self.main_time_left > 0 {
            (self.main_time_left as int) / (if expected_moves > 0 {
                expected_moves
            } else {
                1
            })
        } else if self.byo_stones_left > 0 && self.byo_time_left > 0 {
            (self.byo_time_left as int) / (self.byo_stones_left as int)
        } else {
            100
        }
    }

    /// The exec mirror of `spec_budget`, with the expected remaining moves
    /// taken as half the vacant points plus a floor of ten.
    pub fn budget(&self, game: &Game) -> (r: i64)
        requires
            game.well_formed(),
            self.main_time_left >= 0,
            self.byo_time_left >= 0,
        ensures
            r == self.spec_budget(
                crate::board::vacant_from(game.board.grid@, game.board.size, 0).len() as int / 2
                    + 10,
            ),
    {
        proof {
            crate::board::lemma_points_bound(game.board.size);
            crate::board::lemma_vacant_from_len(game.board.grid@, game.board.size, 0);
        }
        let vacant = game.board.vacant_point_count();
        let expected = (vacant / 2 + 10) as i64;
        if self.main_time_left > 0 {
            self.main_time_left / expected
        } else if self.byo_stones_left > 0 && self.byo_time_left > 0 {
            self.byo_time_left / (self.byo_stones_left as i64)
        } else {
            100
        }
    }
}

} // verus!
