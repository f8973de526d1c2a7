//! The search coordinators' decision cores.  The thread pool, channels and
//! the clock live outside the library; what stands here is everything the
//! coordinator decides: root reuse, recording a playout result and issuing
//! the next task, and turning a finished search into a move (play, pass or
//! resign).

use vstd::prelude::*;

use crate::board::Color;
use crate::board::Move;
use crate::config::Config;
use crate::game::Game;
use crate::ownership::OwnershipStatistics;
use crate::score::Score;
use crate::uct::DESC_CAP;
use crate::uct::Node;
use crate::uct::best_child_idx;
use crate::uct::can_record;
use crate::uct::node_wf;
use crate::uct::rden;
use crate::uct::rnum;
use crate::uct::record_rel;
use crate::uct::sum_desc;

verus! {

impl Node {
    /// Whether the whole tree's `descendants` bookkeeping is exact: the
    /// runtime check for `node_wf`.
    pub fn is_well_formed(&self) -> (r: bool)
        ensures
            r == node_wf(*self),
        decreases self,
    {
        let mut total: u128 = 0;
        let mut i: usize = 0;
        while i < self.children.len()
            invariant
                i <= self.children@.len(),
                total == sum_desc(self.children@.take(i as int)),
                total <= i * 0x1_0000_0000_0000_0000,
            decreases self.children@.len() - i,
        {
            proof {
                assert(self.children@.take(i + 1).drop_last() =~= self.children@.take(i as int));
                assert(self.children@.take(i + 1).last() == self.children@[i as int]);
                assert((i + 1) * 0x1_0000_0000_0000_0000 == i * 0x1_0000_0000_0000_0000
                    + 0x1_0000_0000_0000_0000) by (nonlinear_arith);
            }
            total = total + (self.children[i].descendants as u128) + 1;
            i += 1;
        }
        proof {
            assert(self.children@.take(self.children@.len() as int) =~= self.children@);
        }
        if total != self.descendants as u128 {
            return false;
        }
        let mut j: usize = 0;
        while j < self.children.len()
            invariant
                j <= self.children@.len(),
                self.descendants == sum_desc(self.children@),
                forall|t: int| 0 <= t < j ==> node_wf(#[trigger] self.children@[t]),
            decreases self.children@.len() - j,
        {
            if !self.children[j].is_well_formed() {
                return false;
            }
            j += 1;
        }
        true
    }

    /// Whether `record_on_path` may run with this path and node count: the
    /// runtime check for `can_record`.
    pub fn can_record_check(&self, path: &Vec<usize>, from: usize, k: u64) -> (r: bool)
        requires
            from <= path@.len(),
        ensures
            r == can_record(*self, path@.skip(from as int), k),
        decreases path@.len() - from,
    {
        if from >= path.len() {
            return true;
        }
        let i = path[from];
        proof {
            assert(path@.skip(from as int)[0] == path@[from as int]);
            assert(path@.skip(from as int).drop_first() =~= path@.skip(from as int + 1));
        }
        if i >= self.children.len() {
            return false;
        }
        if k > u64::MAX - self.descendants {
            return false;
        }
        self.children[i].can_record_check(path, from + 1, k)
    }
}

/// What the coordinator's final decision must be, given whether the best
/// line is mostly losses and who currently holds the position: on a mostly
/// lost search, pass if the position is already ours, resign if it is not;
/// otherwise play the best child's move.
pub open spec fn spec_final_move(root: Node, game: Game, color: Color, cutoff: u64) -> Move {
    if root.children@.len() == 0 {
        Move::Pass(color)
    } else {
        let best = root.children@[best_child_idx(root.children@)];
        if rnum(best) * 1000 <= cutoff * rden(best) {
            if game.board.spec_winner() == color {
                Move::Pass(color)
            } else {
                Move::Resign(color)
            }
        } else {
            best.m
        }
    }
}

/// The move-search engine built on the UCT tree alone: it owns the tree
/// across the game and decides the final move from the tree's statistics.
pub struct UctEngine {
    pub config: Config,
    pub root: Node,
    pub previous_node_count: u64,
    /// How many entries of the game's move record the tree has seen.
    pub synced_moves: usize,
}

impl UctEngine {
    pub fn new(config: Config) -> (r: UctEngine)
        ensures
            r.config == config,
            r.root.m == Move::NoMove,
            node_wf(r.root),
            r.previous_node_count == 0 && r.synced_moves == 0,
    {
        UctEngine { config, root: Node::new(Move::NoMove), previous_node_count: 0, synced_moves: 0 }
    }

    /// Point the tree at the game's current position: reuse the matching
    /// subtree when one exists (its now-illegal children pruned), else build
    /// a fresh root.
    pub fn set_new_root(&mut self, game: &Game, color: Color)
        requires
            game.well_formed(),
            color.is_player(),
            node_wf(old(self).root),
        ensures
            crate::uct::reused_or_fresh(
                old(self).root,
                final(self).root,
                *game,
                color,
                if old(self).synced_moves <= game.moves@.len() {
                    old(self).synced_moves as int
                } else {
                    game.moves@.len() as int
                },
                old(self).config.play_out_aftermath,
            ),
            node_wf(final(self).root),
            final(self).synced_moves == game.moves@.len(),
            final(self).config == old(self).config,
    {
        let mut taken = Node::new(Move::NoMove);
        core::mem::swap(&mut self.root, &mut taken);
        let seen = if self.synced_moves <= game.moves().len() {
            self.synced_moves
        } else {
            game.moves().len()
        };
        self.root = taken.find_new_root(game, color, seen, self.config.play_out_aftermath);
        self.synced_moves = game.moves().len();
    }

    /// Start a search: rebuild or reuse the root as configured.  With reuse
    /// off the tree is always a fresh fully expanded root; with reuse on it
    /// follows the recorded moves, pruned, or falls back to a fresh root.
    /// Returns an immediate pass when the root has nothing to simulate.
    pub fn gen_move_setup(&mut self, color: Color, game: &Game) -> (r: Option<Move>)
        requires
            game.well_formed(),
            color.is_player(),
            node_wf(old(self).root),
        ensures
            !old(self).config.reuse_subtree ==> crate::uct::fresh_root_for(
                final(self).root,
                *game,
                color,
                old(self).config.play_out_aftermath,
            ),
            old(self).config.reuse_subtree ==> crate::uct::reused_or_fresh(
                old(self).root,
                final(self).root,
                *game,
                color,
                if old(self).synced_moves <= game.moves@.len() {
                    old(self).synced_moves as int
                } else {
                    game.moves@.len() as int
                },
                old(self).config.play_out_aftermath,
            ),
            node_wf(final(self).root),
            final(self).config == old(self).config,
            r is Some ==> (r == Some(Move::Pass(color)) && final(self).root.children@.len() == 0),
            r is None ==> final(self).root.children@.len() > 0,
    {
        if !self.config.reuse_subtree {
            self.previous_node_count = self.root.descendants();
            self.root = Node::root(game, color, self.config.play_out_aftermath);
            self.synced_moves = game.moves().len();
        } else {
            self.previous_node_count = self.root.descendants();
            self.set_new_root(game, color);
        }
        if self.root.has_no_children() {
            Some(Move::Pass(color))
        } else {
            None
        }
    }

    /// One turn of the coordinator loop: fold a worker's result into the
    /// tree, then select and expand the next leaf for that worker.  The
    /// runtime checks make the step total, and the contract says when each
    /// outcome may happen: `None` comes only when a check failed (the path
    /// no longer fits the tree, the invariant broke, or the tree outgrew
    /// the descendants cap); on `Some` the result was backpropagated and
    /// the task is the UCT selection's, with the tree grown accordingly.
    pub fn step(&mut self, game: &Game, path: &Vec<usize>, winner: Color, nodes_added: u64) -> (r:
        Option<(Vec<usize>, Vec<Move>, bool, u64)>)
        requires
            game.well_formed(),
        ensures
            match r {
                Some(task) => {
                    &&& exists|mid: Node|
                        #[trigger] record_rel(old(self).root, mid, path@, winner, nodes_added)
                            && node_wf(mid) && mid.descendants <= DESC_CAP && crate::uct::descent_rel(
                            mid,
                            final(self).root,
                            task.0@,
                            task.1@,
                            task.3,
                            game.board,
                            old(self).config.expand_after,
                            old(self).config.play_out_aftermath,
                        )
                    &&& crate::uct::wf_short(final(self).root, task.0@, task.3)
                    &&& can_record(final(self).root, task.0@, task.3)
                    &&& task.1@.len() == task.0@.len()
                    &&& task.2 == (task.3 != 0)
                },
                None => {
                    &&& (!can_record(old(self).root, path@, nodes_added) ==> *final(self) == *old(
                        self,
                    ))
                    &&& (can_record(old(self).root, path@, nodes_added) ==> (record_rel(
                        old(self).root,
                        final(self).root,
                        path@,
                        winner,
                        nodes_added,
                    ) && (!node_wf(final(self).root) || final(self).root.descendants > DESC_CAP)))
                },
            },
            final(self).config == old(self).config,
    {
        proof {
            assert(path@.skip(0) =~= path@);
        }
        if !self.root.can_record_check(path, 0, nodes_added) {
            return None;
        }
        self.root.record_on_path(path, winner, nodes_added);
        if !self.root.is_well_formed() {
            return None;
        }
        if self.root.descendants() > DESC_CAP {
            return None;
        }
        let ghost mid = self.root;
        let task = self.root.find_leaf_and_expand(
            game,
            self.config.expand_after,
            self.config.play_out_aftermath,
        );
        Some(task)
    }

    /// Time is up: choose the final move from the tree.  If even the best
    /// child mostly loses, pass when the position's winner is already this
    /// color and resign when it is not; otherwise play the best child's
    /// move.  Either way the tree advances to follow the move, ready for
    /// the next search.
    pub fn finish(&mut self, game: &Game, color: Color) -> (r: (Move, u64))
        requires
            game.well_formed(),
            color.is_player(),
            node_wf(old(self).root),
        ensures
            r.0 == spec_final_move(old(self).root, *game, color, old(
                self,
            ).config.end_of_game_cutoff_permille),
            r.1 == old(self).root.plays,
            node_wf(final(self).root),
            final(self).config == old(self).config,
            game.board.spec_check(r.0) is Ok ==> exists|g2: Game|
                (#[trigger] g2.board.spec_advanced_by(game.board, r.0)) && g2.moves@
                    == game.moves@.push(r.0) && crate::uct::reused_or_fresh(
                    old(self).root,
                    final(self).root,
                    g2,
                    color,
                    if old(self).synced_moves <= game.moves@.len() + 1 {
                        old(self).synced_moves as int
                    } else {
                        game.moves@.len() as int + 1
                    },
                    old(self).config.play_out_aftermath,
                ),
            game.board.spec_check(r.0) is Err ==> (final(self).root.m == Move::NoMove
                && final(self).root.children@.len() == 0 && final(self).root.plays == 0),
    {
        let playouts = self.root.plays();
        let m = if self.root.has_no_children() {
            Move::Pass(color)
        } else if self.root.mostly_losses(self.config.end_of_game_cutoff_permille) {
            if game.winner() == color {
                Move::Pass(color)
            } else {
                Move::Resign(color)
            }
        } else {
            self.root.best().m()
        };
        match game.play(m) {
            Ok(next_game) => {
                self.set_new_root(&next_game, color);
            },
            Err(_) => {
                self.root = Node::new(Move::NoMove);
                self.synced_moves = 0;
            },
        }
        (m, playouts)
    }

    /// Forget everything: a new game is starting.
    pub fn reset(&mut self)
        ensures
            final(self).root.m == Move::NoMove,
            final(self).root.plays == 0 && final(self).root.wins == 0,
            final(self).root.descendants == 0,
            final(self).root.children@.len() == 0,
            node_wf(final(self).root),
            final(self).previous_node_count == 0,
            final(self).synced_moves == 0,
            final(self).config == old(self).config,
    {
        self.previous_node_count = 0;
        self.synced_moves = 0;
        self.root = Node::new(Move::NoMove);
    }
}

/// The full engine: the UCT search plus per-point ownership statistics,
/// which the scoring collaborator reads to decide finished positions.
pub struct EngineImpl {
    pub config: Config,
    pub ownership: OwnershipStatistics,
    pub search: UctEngine,
}

impl EngineImpl {
    pub fn new(config: Config) -> (r: EngineImpl)
        ensures
            r.config == config,
            node_wf(r.search.root),
            r.ownership.well_formed(),
    {
        EngineImpl {
            config: config.clone_config(),
            ownership: OwnershipStatistics::new(19),
            search: UctEngine::new(config),
        }
    }

    /// The current ownership estimates.
    pub fn ownership(&self) -> (r: &OwnershipStatistics)
        ensures
            r == &self.ownership,
    {
        &self.ownership
    }

    /// Start a `genmove`: reset the ownership tallies for the game's size
    /// and point the tree at the current position.
    pub fn genmove_setup(&mut self, color: Color, game: &Game) -> (r: Option<Move>)
        requires
            game.well_formed(),
            color.is_player(),
            node_wf(old(self).search.root),
        ensures
            node_wf(final(self).search.root),
            final(self).ownership.well_formed(),
            final(self).ownership.size == game.board.size,
            r is Some ==> r == Some(Move::Pass(color)),
    {
        self.ownership = OwnershipStatistics::new(game.size());
        self.search.gen_move_setup(color, game)
    }

    /// One turn of the coordinator loop, with the playout's final ownership
    /// folded into the statistics first: when the score fits the board, one
    /// sample is tallied at every point; then the result is backpropagated
    /// and the next task selected exactly as `UctEngine::step` promises.
    pub fn step(&mut self, game: &Game, path: &Vec<usize>, winner: Color, nodes_added: u64, score:
        &Score) -> (r: Option<(Vec<usize>, Vec<Move>, bool, u64)>)
        requires
            game.well_formed(),
        ensures
            old(self).ownership.well_formed() && score.owner@.len() == crate::board::board_points(
                old(self).ownership.size,
            ) ==> {
                &&& final(self).ownership.size == old(self).ownership.size
                &&& final(self).ownership.stats@.len() == old(self).ownership.stats@.len()
                &&& forall|i: int|
                    0 <= i < final(self).ownership.stats@.len()
                        ==> (#[trigger] final(self).ownership.stats@[i]) == crate::ownership::bump(
                        old(self).ownership.stats@[i],
                        score.owner@[i],
                    )
            },
            !(old(self).ownership.well_formed() && score.owner@.len()
                == crate::board::board_points(old(self).ownership.size)) ==> final(self).ownership
                == old(self).ownership,
            match r {
                Some(task) => {
                    &&& exists|mid: Node|
                        #[trigger] record_rel(
                            old(self).search.root,
                            mid,
                            path@,
                            winner,
                            nodes_added,
                        ) && node_wf(mid) && mid.descendants <= DESC_CAP
                            && crate::uct::descent_rel(
                            mid,
                            final(self).search.root,
                            task.0@,
                            task.1@,
                            task.3,
                            game.board,
                            old(self).search.config.expand_after,
                            old(self).search.config.play_out_aftermath,
                        )
                    &&& crate::uct::wf_short(final(self).search.root, task.0@, task.3)
                    &&& can_record(final(self).search.root, task.0@, task.3)
                    &&& task.1@.len() == task.0@.len()
                },
                None => {
                    &&& (!can_record(old(self).search.root, path@, nodes_added)
                        ==> final(self).search == old(self).search)
                    &&& (can_record(old(self).search.root, path@, nodes_added) ==> (record_rel(
                        old(self).search.root,
                        final(self).search.root,
                        path@,
                        winner,
                        nodes_added,
                    ) && (!node_wf(final(self).search.root) || final(self).search.root.descendants
                        > DESC_CAP)))
                },
            },
    {
        proof {
            crate::board::lemma_points_bound(self.ownership.size);
        }
        if self.ownership.well_formed_check() && score.owner.len() == (self.ownership.size as usize)
            * (self.ownership.size as usize) {
            self.ownership.merge(score);
        }
        self.search.step(game, path, winner, nodes_added)
    }

    /// Time is up: decide the move.  When the scoring collaborator has
    /// already called the position decided, pass at once; otherwise fall
    /// back on the tree's statistics as `UctEngine::finish` does.
    pub fn finish(&mut self, game: &Game, color: Color, decided: bool) -> (r: (Move, u64))
        requires
            game.well_formed(),
            color.is_player(),
            node_wf(old(self).search.root),
        ensures
            decided ==> r.0 == Move::Pass(color),
            !decided ==> r.0 == spec_final_move(old(self).search.root, *game, color, old(
                self,
            ).search.config.end_of_game_cutoff_permille),
            r.1 == old(self).search.root.plays,
            node_wf(final(self).search.root),
            game.board.spec_check(r.0) is Ok ==> exists|g2: Game|
                (#[trigger] g2.board.spec_advanced_by(game.board, r.0)) && g2.moves@
                    == game.moves@.push(r.0) && crate::uct::reused_or_fresh(
                    old(self).search.root,
                    final(self).search.root,
                    g2,
                    color,
                    if old(self).search.synced_moves <= game.moves@.len() + 1 {
                        old(self).search.synced_moves as int
                    } else {
                        game.moves@.len() as int + 1
                    },
                    old(self).search.config.play_out_aftermath,
                ),
            game.board.spec_check(r.0) is Err ==> (final(self).search.root.m == Move::NoMove
                && final(self).search.root.children@.len() == 0 && final(self).search.root.plays
                == 0),
    {
        if decided {
            let playouts = self.search.root.plays();
            match game.play(Move::Pass(color)) {
                Ok(next_game) => {
                    self.search.set_new_root(&next_game, color);
                },
                Err(_) => {
                    self.search.root = Node::new(Move::NoMove);
                    self.search.synced_moves = 0;
                },
            }
            (Move::Pass(color), playouts)
        } else {
            self.search.finish(game, color)
        }
    }

    /// Forget everything: board size or komi changed.  The komi lives in
    /// the game itself; only the per-point tallies depend on the size.
    pub fn reset(&mut self, size: u8, _komi2: i32)
        requires
            1 <= size <= 25,
        ensures
            node_wf(final(self).search.root),
            final(self).ownership.well_formed(),
            final(self).ownership.size == size,
    {
        self.search.reset();
        self.ownership = OwnershipStatistics::new(size);
    }
}

impl Config {
    /// A field-for-field copy (the derived clone carries no contract).
    pub fn clone_config(&self) -> (r: Config)
        ensures
            r == *self,
    {
        Config {
            threads: self.threads,
            play_out_aftermath: self.play_out_aftermath,
            reuse_subtree: self.reuse_subtree,
            expand_after: self.expand_after,
            end_of_game_cutoff_permille: self.end_of_game_cutoff_permille,
            priors_plays: self.priors_plays,
            priors_wins: self.priors_wins,
        }
    }
}

impl OwnershipStatistics {
    /// The runtime check for the statistics' invariant.
    pub fn well_formed_check(&self) -> (r: bool)
        ensures
            r == self.well_formed(),
    {
        proof {
            crate::board::lemma_points_bound(self.size);
        }
        if !(1 <= self.size && self.size <= 25) {
            return false;
        }
        let points = (self.size as usize) * (self.size as usize);
        if self.stats.len() != points {
            return false;
        }
        let mut i: usize = 0;
        while i < self.stats.len()
            invariant
                i <= self.stats@.len(),
                forall|j: int|
                    0 <= j < i ==> ((#[trigger] self.stats@[j]).0 <= crate::ownership::OWNER_CAP
                        && self.stats@[j].1 <= crate::ownership::OWNER_CAP && self.stats@[j].2
                        <= crate::ownership::OWNER_CAP),
            decreases self.stats@.len() - i,
    {
            let (b, w, e) = self.stats[i];
            if b > crate::ownership::OWNER_CAP || w > crate::ownership::OWNER_CAP || e
                > crate::ownership::OWNER_CAP {
                return false;
            }
            i += 1;
        }
        true
    }
}

} // verus!
