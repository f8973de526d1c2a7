//! The prior-seeded variant of the search tree.  Fresh nodes start from the
//! configured prior counters instead of zero, so a child begins life with a
//! neutral estimated win ratio; everything else mirrors the UCT tree.

use vstd::prelude::*;

use crate::board::Board;
use crate::board::Color;
use crate::board::Move;
use crate::config::Config;
use crate::game::Game;
use crate::game::lemma_alike_boards;
use crate::uct::inc_sat;
use crate::uct::keep_move;
use crate::uct::lemma_alike_expansion;
use crate::uct::spec_expansion_moves;

verus! {

/// A vertex of the prior-seeded search tree.
#[derive(Debug, PartialEq)]
pub struct Node {
    pub m: Move,
    pub plays: u64,
    pub wins: u64,
    pub descendants: u64,
    pub children: Vec<Node>,
    pub config: Config,
}

/// Whether each `descendants` counter along the path can take `k` more.
pub open spec fn can_record_prior(n: Node, path: Seq<usize>, k: u64) -> bool
    decreases path.len(),
{
    if path.len() == 0 {
        true
    } else {
        &&& (path[0] as int) < n.children@.len()
        &&& n.descendants + k <= u64::MAX
        &&& can_record_prior(n.children@[path[0] as int], path.drop_first(), k)
    }
}

/// How one backpropagation changes this tree: the same shape as the UCT
/// tree's `record_rel`.
pub open spec fn record_rel_prior(
    pre: Node,
    post: Node,
    path: Seq<usize>,
    winner: Color,
    k: u64,
) -> bool
    decreases path.len(),
{
    &&& post.m == pre.m
    &&& post.plays == inc_sat(pre.plays)
    &&& post.wins == if pre.m.spec_color() == winner {
        inc_sat(pre.wins)
    } else {
        pre.wins
    }
    &&& if path.len() == 0 {
        post.descendants == pre.descendants && post.children@ == pre.children@
    } else {
        let i = path[0] as int;
        &&& 0 <= i < pre.children@.len()
        &&& post.descendants == pre.descendants + k
        &&& post.children@.len() == pre.children@.len()
        &&& (forall|j: int|
            0 <= j < pre.children@.len() && j != i ==> post.children@[j] == pre.children@[j])
        &&& record_rel_prior(pre.children@[i], post.children@[i], path.drop_first(), winner, k)
    }
}

impl Node {
    /// A fresh node: no children, no subtree, and the configured prior
    /// counters already on the books.
    pub fn new(m: Move, config: Config) -> (r: Node)
        ensures
            r.m == m,
            r.plays == config.priors_plays,
            r.wins == config.priors_wins,
            r.descendants == 0,
            r.children@ =~= Seq::<Node>::empty(),
            r.config == config,
    {
        Node {
            m,
            plays: config.priors_plays,
            wins: config.priors_wins,
            descendants: 0,
            children: Vec::new(),
            config,
        }
    }

    pub fn m(&self) -> (r: Move)
        ensures
            r == self.m,
    {
        self.m
    }

    pub fn descendants(&self) -> (r: u64)
        ensures
            r == self.descendants,
    {
        self.descendants
    }

    pub fn has_no_children(&self) -> (r: bool)
        ensures
            r == (self.children@.len() == 0),
    {
        self.children.len() == 0
    }

    /// Expansion under the configured play-count threshold and pass policy:
    /// a no-op on a finished position or below the threshold, else one
    /// prior-seeded child per expansion move.
    pub fn expand(&mut self, board: &Board) -> (added: u64)
        requires
            board.well_formed(),
            old(self).children@.len() == 0,
        ensures
            board.spec_over() || old(self).plays < old(self).config.expand_after ==> *final(self)
                == *old(self) && added == 0,
            !board.spec_over() && old(self).plays >= old(self).config.expand_after ==> {
                &&& child_moves_prior(final(self).children@) =~= spec_expansion_moves(
                    *board,
                    old(self).config.play_out_aftermath,
                )
                &&& forall|i: int|
                    0 <= i < final(self).children@.len() ==> {
                        let child = #[trigger] final(self).children@[i];
                        child.plays == old(self).config.priors_plays && child.wins == old(
                            self,
                        ).config.priors_wins && child.descendants == 0
                    }
                &&& final(self).descendants == final(self).children@.len()
                &&& added == final(self).children@.len()
                &&& final(self).m == old(self).m
                &&& final(self).plays == old(self).plays
                &&& final(self).wins == old(self).wins
            },
            final(self).config == old(self).config,
    {
        if board.is_game_over() {
            return 0;
        }
        if self.plays < self.config.expand_after {
            return 0;
        }
        let moves = crate::uct::expansion_moves_for(board, self.config.play_out_aftermath);
        let mut children: Vec<Node> = Vec::new();
        let mut i: usize = 0;
        while i < moves.len()
            invariant
                i <= moves@.len(),
                children@.len() == i,
                forall|j: int|
                    0 <= j < i ==> ((#[trigger] children@[j]).plays == self.config.priors_plays
                        && children@[j].wins == self.config.priors_wins && children@[j].descendants
                        == 0),
                forall|j: int| 0 <= j < i ==> (#[trigger] children@[j]).m == moves@[j],
            decreases moves@.len() - i,
        {
            children.push(Node::new(moves[i], self.config.clone_config()));
            i += 1;
        }
        proof {
            assert(child_moves_prior(children@) =~= moves@);
        }
        let added = children.len() as u64;
        self.descendants = children.len() as u64;
        self.children = children;
        added
    }

    /// Expand a root unconditionally; a finished position still gets no
    /// children.
    pub fn expand_root(&mut self, game: &Game) -> (added: u64)
        requires
            game.well_formed(),
            old(self).children@.len() == 0,
        ensures
            game.board.spec_over() ==> *final(self) == *old(self) && added == 0,
            !game.board.spec_over() ==> {
                &&& child_moves_prior(final(self).children@) =~= spec_expansion_moves(
                    game.board,
                    old(self).config.play_out_aftermath,
                )
                &&& final(self).descendants == final(self).children@.len()
                &&& added == final(self).children@.len()
            },
    {
        let board = game.board();
        proof {
            lemma_alike_boards(board, game.board, Move::NoMove);
            lemma_alike_expansion(board, game.board, self.config.play_out_aftermath);
        }
        // A root expands unconditionally: lift the play count over any
        // threshold for the duration of the expansion.
        let saved = self.plays;
        self.plays = u64::MAX;
        let added = self.expand(&board);
        self.plays = saved;
        added
    }

    /// A search root for the side `color`: expanded at once and
    /// force-initialized with one play and one win.
    pub fn root(game: &Game, color: Color, config: Config) -> (r: Node)
        requires
            game.well_formed(),
            color.is_player(),
        ensures
            r.plays == 1 && r.wins == 1,
            r.m == Move::NoMove,
            !(Board { next: color, ..game.board }).spec_over() ==> child_moves_prior(r.children@)
                =~= spec_expansion_moves(
                (Board { next: color, ..game.board }),
                config.play_out_aftermath,
            ),
    {
        let mut node = Node::new(Move::NoMove, config.clone_config());
        let mut board = game.board();
        board.next = color;
        proof {
            lemma_alike_boards(board, (Board { next: color, ..game.board }), Move::NoMove);
            lemma_alike_expansion(
                board,
                (Board { next: color, ..game.board }),
                config.play_out_aftermath,
            );
        }
        // Expand unconditionally, whatever the configured threshold.
        node.plays = u64::MAX;
        let added = node.expand(&board);
        node.plays = 1;
        node.wins = 1;
        proof {
            let target = (Board { next: color, ..game.board });
            if !target.spec_over() {
                assert(!board.spec_over());
                assert(node.config.play_out_aftermath == config.play_out_aftermath);
                assert(child_moves_prior(node.children@) =~= spec_expansion_moves(
                    board,
                    config.play_out_aftermath,
                ));
                assert(spec_expansion_moves(board, config.play_out_aftermath)
                    == spec_expansion_moves(target, config.play_out_aftermath));
            }
        }
        node
    }

    /// Backpropagate one playout outcome along a path of child indices:
    /// every node on the path gains a play (and a win when its move's color
    /// is the winner); every node but the deepest gains `nodes_added`
    /// descendants.
    pub fn record_on_path(&mut self, path: &Vec<usize>, winner: Color, nodes_added: u64)
        requires
            can_record_prior(*old(self), path@, nodes_added),
        ensures
            record_rel_prior(*old(self), *final(self), path@, winner, nodes_added),
    {
        proof {
            assert(path@.skip(0) =~= path@);
        }
        self.record_rec(path, 0, winner, nodes_added);
    }

    fn record_rec(&mut self, path: &Vec<usize>, from: usize, winner: Color, k: u64)
        requires
            from <= path@.len(),
            can_record_prior(*old(self), path@.skip(from as int), k),
        ensures
            record_rel_prior(*old(self), *final(self), path@.skip(from as int), winner, k),
        decreases path@.len() - from,
    {
        if self.plays < u64::MAX {
            self.plays = self.plays + 1;
        }
        if self.m.color() == winner {
            if self.wins < u64::MAX {
                self.wins = self.wins + 1;
            }
        }
        if from < path.len() {
            let i = path[from];
            proof {
                assert(path@.skip(from as int)[0] == path@[from as int]);
            }
            self.descendants = self.descendants + k;
            let mut child = self.children.remove(i);
            proof {
                assert(path@.skip(from as int).drop_first() =~= path@.skip(from as int + 1));
            }
            child.record_rec(path, from + 1, winner, k);
            self.children.insert(i, child);
            proof {
                let pre = *old(self);
                let cf = self.children@[i as int];
                assert(self.children@ =~= pre.children@.update(i as int, cf));
            }
        }
    }

    /// The first child whose move is `m`.
    pub fn find_child(&self, m: Move) -> (r: &Node)
        requires
            exists|i: int| 0 <= i < self.children@.len() && (#[trigger] self.children@[i]).m == m,
        ensures
            r.m == m,
            exists|i: int| 0 <= i < self.children@.len() && *r == (#[trigger] self.children@[i]),
    {
        let mut j: usize = 0;
        while j < self.children.len()
            invariant
                j <= self.children@.len(),
                exists|i: int|
                    0 <= i < self.children@.len() && (#[trigger] self.children@[i]).m == m,
                forall|t: int| 0 <= t < j ==> (#[trigger] self.children@[t]).m != m,
            decreases self.children@.len() - j,
        {
            if self.children[j].m() == m {
                return &self.children[j];
            }
            j += 1;
        }
        proof {
            assert(false);
        }
        &self.children[0]
    }

    /// Re-validate the children against the actual game state, discarding
    /// any that are now illegal (superko) or a pass the endgame policy no
    /// longer offers.
    pub fn remove_illegal_children(&mut self, game: &Game)
        requires
            game.well_formed(),
        ensures
            forall|i: int|
                0 <= i < final(self).children@.len() ==> keep_move(
                    game.board,
                    old(self).config.play_out_aftermath,
                    (#[trigger] final(self).children@[i]).m,
                ),
            final(self).children@.len() <= old(self).children@.len(),
            final(self).m == old(self).m,
            final(self).plays == old(self).plays,
            final(self).wins == old(self).wins,
    {
        let board = game.board();
        proof {
            lemma_alike_boards(board, game.board, Move::NoMove);
        }
        let aftermath = self.config.play_out_aftermath;
        let mut pending = Vec::new();
        core::mem::swap(&mut self.children, &mut pending);
        let mut kept: Vec<Node> = Vec::new();
        let mut total: u64 = 0;
        let ghost original_len = pending@.len();
        while pending.len() > 0
            invariant
                game.well_formed(),
                board.well_formed(),
                crate::game::boards_alike(board, game.board),
                aftermath == self.config.play_out_aftermath,
                kept@.len() + pending@.len() <= original_len,
                forall|t: int|
                    0 <= t < kept@.len() ==> keep_move(
                        game.board,
                        aftermath,
                        (#[trigger] kept@[t]).m,
                    ),
            decreases pending@.len(),
        {
            let child = pending.remove(0);
            let keep = match child.m() {
                Move::Play(_, _, _) => board.is_legal(child.m()),
                Move::Pass(c) => !board.is_game_over() && board.pass_allowed(c, aftermath),
                _ => false,
            };
            proof {
                lemma_alike_boards(board, game.board, child.m);
            }
            if keep {
                total = if total < u64::MAX - child.descendants {
                    total + child.descendants + 1
                } else {
                    u64::MAX
                };
                kept.push(child);
            }
        }
        self.children = kept;
        self.descendants = total;
    }
}

/// The moves of a run of children, in order.
pub open spec fn child_moves_prior(children: Seq<Node>) -> Seq<Move> {
    Seq::new(children.len(), |i: int| children[i].m)
}

} // verus!
