//! A game in progress: a board together with the moves that produced it.
//! `play` hands back a new game, leaving the old one untouched, which is how
//! the protocol layer retries a move that turns out to be illegal.

use vstd::prelude::*;

use crate::board::Board;
use crate::board::Color;
use crate::board::IllegalMove;
use crate::board::Move;
use crate::board::Ruleset;
use crate::board::board_points;
use crate::board::history_views;

verus! {

/// Two boards that agree on every field a rule or score can read.  A board
/// and its `duplicate` are alike in this sense.
pub open spec fn boards_alike(a: Board, b: Board) -> bool {
    &&& a.size == b.size && a.komi2 == b.komi2 && a.ruleset == b.ruleset
    &&& a.grid@ == b.grid@
    &&& a.next == b.next
    &&& a.consecutive_passes == b.consecutive_passes
    &&& a.resigned == b.resigned
    &&& a.moves_played == b.moves_played
    &&& history_views(a.history@) =~= history_views(b.history@)
}

/// Alike boards accept the same moves with the same verdicts, name the same
/// winner, and are advanced alike by a move.
pub proof fn lemma_alike_boards(a: Board, b: Board, m: Move)
    requires
        boards_alike(a, b),
    ensures
        a.spec_check(m) == b.spec_check(m),
        a.spec_winner() == b.spec_winner(),
        a.well_formed() == b.well_formed(),
        a.spec_over() == b.spec_over(),
        forall|n: Board| n.spec_advanced_by(a, m) == n.spec_advanced_by(b, m),
{
    assert(history_views(a.history@).len() == a.history@.len());
    assert(history_views(b.history@).len() == b.history@.len());
    assert(a.history@.len() == b.history@.len());
    assert forall|candidate: Seq<Color>|
        a.spec_repeats(candidate) == b.spec_repeats(candidate) by {
        if a.spec_repeats(candidate) {
            let i = choose|i: int|
                0 <= i < a.history@.len() && (#[trigger] a.history@[i])@ =~= candidate;
            assert(history_views(a.history@)[i] == a.history@[i]@);
            assert(history_views(b.history@)[i] == b.history@[i]@);
        }
        if b.spec_repeats(candidate) {
            let i = choose|i: int|
                0 <= i < b.history@.len() && (#[trigger] b.history@[i])@ =~= candidate;
            assert(history_views(a.history@)[i] == a.history@[i]@);
            assert(history_views(b.history@)[i] == b.history@[i]@);
        }
    }
    assert(a.well_formed() == b.well_formed()) by {
        if a.well_formed() {
            assert forall|i: int| 0 <= i < b.history@.len() implies (#[trigger] b.history@[i])@.len()
                == board_points(b.size) by {
                assert(history_views(a.history@)[i] == a.history@[i]@);
                assert(history_views(b.history@)[i] == b.history@[i]@);
            }
        }
        if b.well_formed() {
            assert forall|i: int| 0 <= i < a.history@.len() implies (#[trigger] a.history@[i])@.len()
                == board_points(a.size) by {
                assert(history_views(a.history@)[i] == a.history@[i]@);
                assert(history_views(b.history@)[i] == b.history@[i]@);
            }
        }
    }
    assert forall|n: Board| n.spec_advanced_by(a, m) == n.spec_advanced_by(b, m) by {
        match m {
            Move::Play(_, _, _) => {
                assert(history_views(a.history@).push(n.grid@) =~= history_views(b.history@).push(
                    n.grid@,
                ));
                if n.spec_advanced_by(a, m) {
                    assert(history_views(n.history@) =~= history_views(b.history@).push(n.grid@));
                }
                if n.spec_advanced_by(b, m) {
                    assert(history_views(n.history@) =~= history_views(a.history@).push(n.grid@));
                }
            },
            _ => {
                if n.spec_advanced_by(a, m) {
                    assert(history_views(n.history@) =~= history_views(b.history@));
                }
                if n.spec_advanced_by(b, m) {
                    assert(history_views(n.history@) =~= history_views(a.history@));
                }
            },
        }
    }
}

/// A game: the current board plus the full move record.
#[derive(Clone, Debug)]
pub struct Game {
    pub board: Board,
    pub moves: Vec<Move>,
}

impl Game {
    pub open spec fn well_formed(self) -> bool {
        self.board.well_formed()
    }

    /// A fresh game on an empty board.  Komi is given in half points.
    pub fn new(size: u8, komi2: i32, ruleset: Ruleset) -> (r: Game)
        requires
            1 <= size <= 25,
        ensures
            r.well_formed(),
            r.board.size == size && r.board.komi2 == komi2 && r.board.ruleset == ruleset,
            r.board.next == Color::Black,
            r.board.consecutive_passes == 0 && r.board.resigned == Color::Empty,
            r.board.moves_played == 0,
            r.board.grid@.len() == board_points(size),
            forall|p: int| 0 <= p < r.board.grid@.len() ==> r.board.grid@[p] == Color::Empty,
            history_views(r.board.history@) =~= seq![r.board.grid@],
            r.moves@ =~= Seq::<Move>::empty(),
    {
        Game { board: Board::new(size, komi2, ruleset), moves: Vec::new() }
    }

    /// Apply a move, producing the game after it; the original game is left
    /// as it was.  Exactly the moves `Board::spec_check` accepts succeed.
    pub fn play(&self, m: Move) -> (r: Result<Game, IllegalMove>)
        requires
            self.well_formed(),
        ensures
            match r {
                Ok(g) => {
                    &&& self.board.spec_check(m) is Ok
                    &&& g.well_formed()
                    &&& g.board.spec_advanced_by(self.board, m)
                    &&& g.moves@ =~= self.moves@.push(m)
                },
                Err(e) => Err::<(), IllegalMove>(e) == self.board.spec_check(m),
            },
    {
        let mut board = self.board.duplicate();
        proof {
            lemma_alike_boards(board, self.board, m);
        }
        match board.play_move(m) {
            Ok(()) => {
                let mut moves = self.moves.clone();
                moves.push(m);
                Ok(Game { board, moves })
            },
            Err(e) => Err(e),
        }
    }

    /// A private copy of the board, alike the game's own in every readable
    /// field; workers mutate such copies freely.
    pub fn board(&self) -> (r: Board)
        requires
            self.well_formed(),
        ensures
            boards_alike(r, self.board),
            r.well_formed(),
    {
        let r = self.board.duplicate();
        proof {
            lemma_alike_boards(r, self.board, Move::NoMove);
        }
        r
    }

    pub fn size(&self) -> (r: u8)
        ensures
            r == self.board.size,
    {
        self.board.size()
    }

    /// Komi in half points.
    pub fn komi2(&self) -> (r: i32)
        ensures
            r == self.board.komi2,
    {
        self.board.komi2()
    }

    pub fn ruleset(&self) -> (r: Ruleset)
        ensures
            r == self.board.ruleset,
    {
        self.board.ruleset
    }

    pub fn set_komi(&mut self, komi2: i32)
        ensures
            *final(self) == (Game { board: Board { komi2, ..old(self).board }, ..*old(self) }),
    {
        self.board.komi2 = komi2;
    }

    pub fn next_player(&self) -> (r: Color)
        ensures
            r == self.board.next,
    {
        self.board.next_player()
    }

    pub fn is_over(&self) -> (r: bool)
        ensures
            r == self.board.spec_over(),
    {
        self.board.is_game_over()
    }

    pub fn winner(&self) -> (r: Color)
        requires
            self.well_formed(),
        ensures
            r == self.board.spec_winner(),
    {
        self.board.winner()
    }

    /// The record of moves played, oldest first.
    pub fn moves(&self) -> (r: &Vec<Move>)
        ensures
            r@ == self.moves@,
    {
        &self.moves
    }
}

} // verus!
