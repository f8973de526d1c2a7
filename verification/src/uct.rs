//! The UCT search tree.  A `Node` owns its children; `plays` and `wins`
//! count simulations through the node, `descendants` counts the nodes of the
//! subtree below it.  Selection walks down by UCT score, expansion turns a
//! visited leaf into children (one per legal move, plus a pass when the
//! endgame policy allows it), and `record_on_path` backpropagates a playout
//! outcome along the path the selection took.

use vstd::prelude::*;

use crate::board::Board;
use crate::board::Color;
use crate::board::Coord;
use crate::board::Move;
use crate::board::adjacent;
use crate::board::board_points;
use crate::board::chain_has_liberty;
use crate::board::lemma_points_bound;
use crate::board::spec_grid_after;
use crate::board::vacant_from;
use crate::game::Game;
use crate::game::boards_alike;
use crate::game::lemma_alike_boards;

verus! {

/// Counters saturate at the top of `u64` instead of wrapping.
pub open spec fn inc_sat(x: u64) -> u64 {
    if x < u64::MAX {
        (x + 1) as u64
    } else {
        u64::MAX
    }
}

/// A vertex of the search tree.
#[derive(Debug, PartialEq)]
pub struct Node {
    /// The move that led here from the parent; `NoMove` for a fresh root.
    pub m: Move,
    pub plays: u64,
    pub wins: u64,
    /// The number of nodes in the subtree below this one.
    pub descendants: u64,
    pub children: Vec<Node>,
}

/// Two trees that agree on every counter, move and child, all the way down.
pub open spec fn tree_eq(a: Node, b: Node) -> bool
    decreases a,
{
    &&& a.m == b.m
    &&& a.plays == b.plays
    &&& a.wins == b.wins
    &&& a.descendants == b.descendants
    &&& a.children@.len() == b.children@.len()
    &&& forall|i: int|
        0 <= i < a.children@.len() ==> tree_eq(#[trigger] a.children@[i], b.children@[i])
}

impl Clone for Node {
    /// A deep copy: the derived clone cannot carry a contract, so this one
    /// is written out, with the copy known equal to the original node for
    /// node, field for field.
    fn clone(&self) -> (res: Self)
        ensures
            tree_eq(*self, res),
        decreases self,
    {
        let mut children: Vec<Node> = Vec::new();
        let mut i: usize = 0;
        while i < self.children.len()
            invariant
                i <= self.children@.len(),
                children@.len() == i,
                forall|j: int|
                    0 <= j < i ==> tree_eq(self.children@[j], #[trigger] children@[j]),
            decreases self.children@.len() - i,
        {
            children.push(self.children[i].clone());
            i += 1;
        }
        Node {
            m: self.m,
            plays: self.plays,
            wins: self.wins,
            descendants: self.descendants,
            children,
        }
    }
}

/// The sum over children of `descendants(child) + 1`.
pub open spec fn sum_desc(children: Seq<Node>) -> int
    decreases children.len(),
{
    if children.len() == 0 {
        0
    } else {
        sum_desc(children.drop_last()) + children.last().descendants + 1
    }
}

/// Every node's `descendants` equals the sum over its children of
/// `descendants(child) + 1`.
pub open spec fn node_wf(n: Node) -> bool
    decreases n,
{
    &&& n.descendants == sum_desc(n.children@)
    &&& forall|i: int| 0 <= i < n.children@.len() ==> node_wf(#[trigger] n.children@[i])
}

/// Each child contributes at least `descendants + 1` to the sum.
pub proof fn lemma_sum_desc_elem(children: Seq<Node>, i: int)
    requires
        0 <= i < children.len(),
    ensures
        sum_desc(children) >= children[i].descendants + 1,
        sum_desc(children) >= 0,
    decreases children.len(),
{
    lemma_sum_desc_nonneg(children.drop_last());
    if i == children.len() - 1 {
    } else {
        lemma_sum_desc_elem(children.drop_last(), i);
    }
}

/// The sum is never negative.
pub proof fn lemma_sum_desc_nonneg(children: Seq<Node>)
    ensures
        sum_desc(children) >= 0,
    decreases children.len(),
{
    if children.len() > 0 {
        lemma_sum_desc_nonneg(children.drop_last());
    }
}

/// Replacing one child changes the sum by the difference of the two
/// `descendants` fields.
pub proof fn lemma_sum_desc_update(children: Seq<Node>, i: int, n: Node)
    requires
        0 <= i < children.len(),
    ensures
        sum_desc(children.update(i, n)) == sum_desc(children) + n.descendants
            - children[i].descendants,
    decreases children.len(),
{
    let updated = children.update(i, n);
    if i == children.len() - 1 {
        assert(updated.drop_last() =~= children.drop_last());
    } else {
        assert(updated.drop_last() =~= children.drop_last().update(i, n));
        assert(updated.last() == children.last());
        lemma_sum_desc_update(children.drop_last(), i, n);
    }
}

/// A run of children with no descendants sums to its length.
pub proof fn lemma_sum_desc_fresh(children: Seq<Node>)
    requires
        forall|i: int| 0 <= i < children.len() ==> (#[trigger] children[i]).descendants == 0,
    ensures
        sum_desc(children) == children.len(),
    decreases children.len(),
{
    if children.len() > 0 {
        lemma_sum_desc_fresh(children.drop_last());
    }
}

/// The `Play` moves of the side to move on the given vacant points, keeping
/// exactly the legal ones, in order.
pub open spec fn legal_plays(b: Board, vs: Seq<Coord>) -> Seq<Move>
    decreases vs.len(),
{
    if vs.len() == 0 {
        Seq::empty()
    } else {
        let m = Move::Play(b.next, vs[0].col, vs[0].row);
        (if b.spec_legal(m) {
            seq![m]
        } else {
            Seq::empty()
        }) + legal_plays(b, vs.drop_first())
    }
}

/// What expansion adds below a node: nothing on a finished position;
/// otherwise one child per legal play on a vacant point, plus a pass when
/// the pass policy allows one.
pub open spec fn spec_expansion_moves(b: Board, play_out_aftermath: bool) -> Seq<Move> {
    if b.spec_over() {
        Seq::empty()
    } else {
        legal_plays(b, vacant_from(b.grid@, b.size, 0)) + (if b.spec_pass_allowed(
            b.next,
            play_out_aftermath,
        ) {
            seq![Move::Pass(b.next)]
        } else {
            Seq::empty()
        })
    }
}

/// Every play in `legal_plays` is legal, and none of them is a pass.
pub proof fn lemma_legal_plays_legal(b: Board, vs: Seq<Coord>)
    ensures
        forall|i: int|
            0 <= i < legal_plays(b, vs).len() ==> (#[trigger] legal_plays(b, vs)[i]) is Play
                && b.spec_legal(legal_plays(b, vs)[i]),
    decreases vs.len(),
{
    if vs.len() > 0 {
        lemma_legal_plays_legal(b, vs.drop_first());
    }
}

/// A superko-violating (or otherwise illegal) play never appears among the
/// moves expansion generates, and a pass appears exactly when the position is
/// past the opening and the side to move is not behind (or the aftermath is
/// not being played out).
pub proof fn lemma_expansion_moves_sound(b: Board, play_out_aftermath: bool)
    ensures
        forall|i: int|
            0 <= i < spec_expansion_moves(b, play_out_aftermath).len() && (
            #[trigger] spec_expansion_moves(b, play_out_aftermath)[i]) is Play ==> b.spec_legal(
                spec_expansion_moves(b, play_out_aftermath)[i],
            ),
        spec_expansion_moves(b, play_out_aftermath).contains(Move::Pass(b.next)) <==> (
        !b.spec_over() && b.spec_pass_allowed(b.next, play_out_aftermath)),
{
    let moves = spec_expansion_moves(b, play_out_aftermath);
    lemma_legal_plays_legal(b, vacant_from(b.grid@, b.size, 0));
    if !b.spec_over() {
        let plays = legal_plays(b, vacant_from(b.grid@, b.size, 0));
        if b.spec_pass_allowed(b.next, play_out_aftermath) {
            assert(moves[plays.len() as int] == Move::Pass(b.next));
            assert(moves.contains(Move::Pass(b.next)));
        } else {
            assert(moves =~= plays + Seq::<Move>::empty());
            if moves.contains(Move::Pass(b.next)) {
                let i = choose|i: int| 0 <= i < moves.len() && moves[i] == Move::Pass(b.next);
                assert(moves[i] is Play);
            }
        }
    }
}

/// Exec mirror of `spec_expansion_moves`.
pub fn expansion_moves_for(board: &Board, play_out_aftermath: bool) -> (r: Vec<Move>)
    requires
        board.well_formed(),
    ensures
        r@ =~= spec_expansion_moves(*board, play_out_aftermath),
        r@.len() <= board_points(board.size) + 1,
{
    proof {
        lemma_points_bound(board.size);
        crate::board::lemma_vacant_from_len(board.grid@, board.size, 0);
        lemma_legal_plays_len(*board, vacant_from(board.grid@, board.size, 0));
    }
    if board.is_game_over() {
        let r: Vec<Move> = Vec::new();
        return r;
    }
    let vac = board.vacant();
    let color = board.next_player();
    let mut r: Vec<Move> = Vec::new();
    proof {
        assert(vac@.skip(0) =~= vac@);
        assert(Seq::<Move>::empty() + legal_plays(*board, vac@) =~= legal_plays(*board, vac@));
    }
    let mut i: usize = 0;
    while i < vac.len()
        invariant
            board.well_formed(),
            i <= vac@.len(),
            color == board.next,
            vac@ == vacant_from(board.grid@, board.size, 0),
            r@ + legal_plays(*board, vac@.skip(i as int)) =~= legal_plays(*board, vac@),
            r@.len() <= i,
        decreases vac@.len() - i,
    {
        let c = vac[i];
        let m = Move::Play(color, c.col, c.row);
        proof {
            assert(vac@.skip(i as int).drop_first() =~= vac@.skip(i + 1));
            assert(vac@.skip(i as int)[0] == vac@[i as int]);
        }
        if board.is_legal(m) {
            proof {
                assert((r@.push(m)) + legal_plays(*board, vac@.skip(i + 1)) =~= r@ + legal_plays(
                    *board,
                    vac@.skip(i as int),
                ));
            }
            r.push(m);
        }
        i += 1;
    }
    proof {
        assert(vac@.skip(vac@.len() as int) =~= Seq::<Coord>::empty());
        assert(r@ =~= legal_plays(*board, vac@));
    }
    if board.pass_allowed(color, play_out_aftermath) {
        r.push(Move::Pass(color));
    }
    proof {
        assert(r@ =~= spec_expansion_moves(*board, play_out_aftermath));
    }
    r
}

/// `legal_plays` yields at most one move per vacant point.
proof fn lemma_legal_plays_len(b: Board, vs: Seq<Coord>)
    ensures
        legal_plays(b, vs).len() <= vs.len(),
    decreases vs.len(),
{
    if vs.len() > 0 {
        lemma_legal_plays_len(b, vs.drop_first());
    }
}

/// The moves of a run of children, in order.
pub open spec fn child_moves(children: Seq<Node>) -> Seq<Move> {
    Seq::new(children.len(), |i: int| children[i].m)
}

impl Node {
    /// A fresh node for the given move: no children, all counters zero.
    pub fn new(m: Move) -> (r: Node)
        ensures
            r.m == m,
            r.plays == 0 && r.wins == 0 && r.descendants == 0,
            r.children@ =~= Seq::<Node>::empty(),
            node_wf(r),
    {
        Node { m, plays: 0, wins: 0, descendants: 0, children: Vec::new() }
    }

    pub fn m(&self) -> (r: Move)
        ensures
            r == self.m,
    {
        self.m
    }

    pub fn plays(&self) -> (r: u64)
        ensures
            r == self.plays,
    {
        self.plays
    }

    pub fn wins(&self) -> (r: u64)
        ensures
            r == self.wins,
    {
        self.wins
    }

    pub fn descendants(&self) -> (r: u64)
        ensures
            r == self.descendants,
    {
        self.descendants
    }

    pub fn has_no_children(&self) -> (r: bool)
        ensures
            r == (self.children@.len() == 0),
    {
        self.children.len() == 0
    }

    /// Expansion under an explicit play-count threshold and pass policy:
    /// a no-op on a finished position or when the threshold has not been
    /// reached, else one fresh child per expansion move.
    fn expand_with(&mut self, board: &Board, expand_after: u64, play_out_aftermath: bool) -> (added:
        u64)
        requires
            board.well_formed(),
            old(self).children@.len() == 0,
        ensures
            board.spec_over() || old(self).plays < expand_after ==> *final(self) == *old(self)
                && added == 0,
            !board.spec_over() && old(self).plays >= expand_after ==> {
                &&& child_moves(final(self).children@) =~= spec_expansion_moves(
                    *board,
                    play_out_aftermath,
                )
                &&& forall|i: int|
                    0 <= i < final(self).children@.len() ==> fresh_child(
                        #[trigger] final(self).children@[i],
                    )
                &&& final(self).descendants == final(self).children@.len()
                &&& added == final(self).children@.len()
                &&& added <= board_points(board.size) + 1
                &&& node_wf(*final(self))
                &&& final(self).m == old(self).m
                &&& final(self).plays == old(self).plays
                &&& final(self).wins == old(self).wins
            },
    {
        if board.is_game_over() {
            return 0;
        }
        if self.plays < expand_after {
            return 0;
        }
        let moves = expansion_moves_for(board, play_out_aftermath);
        let mut children: Vec<Node> = Vec::new();
        let mut i: usize = 0;
        while i < moves.len()
            invariant
                i <= moves@.len(),
                children@.len() == i,
                forall|j: int| 0 <= j < i ==> fresh_child(#[trigger] children@[j]),
                forall|j: int| 0 <= j < i ==> (#[trigger] children@[j]).m == moves@[j],
            decreases moves@.len() - i,
        {
            children.push(Node::new(moves[i]));
            i += 1;
        }
        proof {
            lemma_sum_desc_fresh(children@);
            assert(child_moves(children@) =~= moves@);
            assert forall|j: int| 0 <= j < children@.len() implies node_wf(
                #[trigger] children@[j],
            ) by {
                assert(fresh_child(children@[j]));
                assert(sum_desc(children@[j].children@) == 0);
            }
        }
        let added = children.len() as u64;
        self.descendants = children.len() as u64;
        self.children = children;
        added
    }

    /// Expansion as the search uses it: a no-op on a two-pass (or resigned)
    /// position and below the play-count threshold; a pass child follows the
    /// endgame policy under the given aftermath setting.
    pub fn expand(&mut self, board: &Board, expand_after: u64, play_out_aftermath: bool) -> (added:
        u64)
        requires
            board.well_formed(),
            old(self).children@.len() == 0,
        ensures
            board.spec_over() || old(self).plays < expand_after ==> *final(self) == *old(self)
                && added == 0,
            !board.spec_over() && old(self).plays >= expand_after ==> expanded_from(
                *final(self),
                *old(self),
                *board,
                play_out_aftermath,
                added,
            ),
    {
        self.expand_with(board, expand_after, play_out_aftermath)
    }

    /// Expand a root unconditionally (no play-count threshold); a finished
    /// position still gets no children.
    pub fn expand_root(&mut self, game: &Game, play_out_aftermath: bool) -> (added: u64)
        requires
            game.well_formed(),
            old(self).children@.len() == 0,
        ensures
            game.board.spec_over() ==> *final(self) == *old(self) && added == 0,
            !game.board.spec_over() ==> expanded_from(
                *final(self),
                *old(self),
                game.board,
                play_out_aftermath,
                added,
            ),
    {
        let board = game.board();
        proof {
            lemma_alike_boards(board, game.board, Move::NoMove);
            lemma_alike_expansion(board, game.board, play_out_aftermath);
        }
        self.expand_with(&board, 0, play_out_aftermath)
    }

    /// A search root for the side `color`: expanded at once, and
    /// force-initialized with one play and one win so the UCT logarithm is
    /// always defined and the root never counts as unvisited.
    pub fn root(game: &Game, color: Color, play_out_aftermath: bool) -> (r: Node)
        requires
            game.well_formed(),
            color.is_player(),
        ensures
            r.plays == 1 && r.wins == 1,
            r.m == Move::NoMove,
            node_wf(r),
            child_moves(r.children@) =~= spec_expansion_moves(
                (Board { next: color, ..game.board }),
                play_out_aftermath,
            ),
            forall|i: int| 0 <= i < r.children@.len() ==> fresh_child(#[trigger] r.children@[i]),
            r.descendants == r.children@.len(),
    {
        let mut node = Node::new(Move::NoMove);
        let mut board = game.board();
        board.next = color;
        proof {
            lemma_alike_boards(board, (Board { next: color, ..game.board }), Move::NoMove);
            lemma_alike_expansion(
                board,
                (Board { next: color, ..game.board }),
                play_out_aftermath,
            );
        }
        let added = node.expand_with(&board, 0, play_out_aftermath);
        node.plays = 1;
        node.wins = 1;
        node
    }
}

/// A child as expansion creates it: fresh counters, no subtree.
pub open spec fn fresh_child(n: Node) -> bool {
    n.plays == 0 && n.wins == 0 && n.descendants == 0 && n.children@.len() == 0
}

/// What a completed expansion leaves behind.
pub open spec fn expanded_from(
    post: Node,
    pre: Node,
    board: Board,
    play_out_aftermath: bool,
    added: u64,
) -> bool {
    &&& child_moves(post.children@) =~= spec_expansion_moves(board, play_out_aftermath)
    &&& forall|i: int| 0 <= i < post.children@.len() ==> fresh_child(#[trigger] post.children@[i])
    &&& post.descendants == post.children@.len()
    &&& added == post.children@.len()
    &&& node_wf(post)
    &&& post.m == pre.m && post.plays == pre.plays && post.wins == pre.wins
}

/// Every child a completed expansion leaves behind is sound: a play child
/// is legal for the board (in particular, no superko violation), and a pass
/// child exists exactly when the position is past the opening and the side
/// to move is not behind (or the aftermath is not being played out).
pub proof fn lemma_expanded_children_sound(
    post: Node,
    pre: Node,
    board: Board,
    play_out_aftermath: bool,
    added: u64,
)
    requires
        expanded_from(post, pre, board, play_out_aftermath, added),
    ensures
        forall|i: int|
            0 <= i < post.children@.len() && (#[trigger] post.children@[i]).m is Play
                ==> board.spec_legal(post.children@[i].m),
        (exists|i: int| 0 <= i < post.children@.len() && (#[trigger] post.children@[i]).m is Pass)
            <==> (!board.spec_over() && board.spec_pass_allowed(board.next, play_out_aftermath)),
{
    let moves = spec_expansion_moves(board, play_out_aftermath);
    lemma_expansion_moves_sound(board, play_out_aftermath);
    assert(child_moves(post.children@).len() == post.children@.len());
    assert forall|i: int|
        0 <= i < post.children@.len() && (#[trigger] post.children@[i]).m is Play implies board.spec_legal(
        post.children@[i].m,
    ) by {
        assert(child_moves(post.children@)[i] == post.children@[i].m);
        assert(moves[i] == post.children@[i].m);
    }
    if exists|i: int| 0 <= i < post.children@.len() && (#[trigger] post.children@[i]).m is Pass {
        let i = choose|i: int|
            0 <= i < post.children@.len() && (#[trigger] post.children@[i]).m is Pass;
        assert(child_moves(post.children@)[i] == post.children@[i].m);
        assert(moves[i] == post.children@[i].m);
        assert(!(moves[i] is Play));
        assert(!board.spec_over() && board.spec_pass_allowed(board.next, play_out_aftermath)) by {
            if board.spec_over() {
                assert(moves.len() == 0);
            } else if !board.spec_pass_allowed(board.next, play_out_aftermath) {
                assert(moves =~= legal_plays(board, vacant_from(board.grid@, board.size, 0))
                    + Seq::<Move>::empty());
                lemma_legal_plays_legal(board, vacant_from(board.grid@, board.size, 0));
                assert(moves[i] is Play);
            }
        }
    }
    if !board.spec_over() && board.spec_pass_allowed(board.next, play_out_aftermath) {
        let plays = legal_plays(board, vacant_from(board.grid@, board.size, 0));
        assert(moves[plays.len() as int] == Move::Pass(board.next));
        assert(child_moves(post.children@)[plays.len() as int] == post.children@[plays.len() as int].m);
        assert(post.children@[plays.len() as int].m is Pass);
    }
}

/// Alike boards (same readable fields) expand to the same moves.
pub proof fn lemma_alike_expansion(a: Board, b: Board, play_out_aftermath: bool)
    requires
        boards_alike(a, b),
    ensures
        spec_expansion_moves(a, play_out_aftermath) == spec_expansion_moves(b, play_out_aftermath),
{
    lemma_alike_boards(a, b, Move::NoMove);
    lemma_alike_legal_plays(a, b, vacant_from(a.grid@, a.size, 0));
    assert(vacant_from(a.grid@, a.size, 0) == vacant_from(b.grid@, b.size, 0));
    if !a.spec_over() {
        assert(spec_expansion_moves(a, play_out_aftermath) =~= spec_expansion_moves(
            b,
            play_out_aftermath,
        ));
    }
}

/// Alike boards accept the same plays on the same vacant points.
proof fn lemma_alike_legal_plays(a: Board, b: Board, vs: Seq<Coord>)
    requires
        boards_alike(a, b),
    ensures
        legal_plays(a, vs) == legal_plays(b, vs),
    decreases vs.len(),
{
    if vs.len() > 0 {
        lemma_alike_boards(a, b, Move::Play(a.next, vs[0].col, vs[0].row));
        lemma_alike_legal_plays(a, b, vs.drop_first());
        assert(legal_plays(a, vs) =~= legal_plays(b, vs));
    }
}

/// Fixed-point scale used by the integer rendering of the UCT score.
pub const UCT_SCALE: u64 = 10000;

/// `ln 2`, at the same scale.
pub const UCT_LN2: u64 = 6931;

/// The exploration constant (the square root of two), at the same scale.
pub const UCT_EXPLORATION: u64 = 14142;

/// Room kept below `u64::MAX` so one backpropagation can always add a
/// board's worth of fresh nodes to every `descendants` counter on the path.
pub const DESC_CAP: u64 = 0x7fff_ffff_ffff_ffff;

/// The floor of the base-two logarithm (zero below two).
pub open spec fn log2_spec(n: int) -> int
    decreases n,
{
    if n < 2 {
        0
    } else {
        1 + log2_spec(n / 2)
    }
}

/// `r` is the integer square root of `x`.
pub open spec fn is_sqrt(r: int, x: int) -> bool {
    r >= 0 && r * r <= x && x < (r + 1) * (r + 1)
}

/// The integer square root, as a value.
pub open spec fn sqrt_spec(x: int) -> int {
    choose|r: int| is_sqrt(r, x)
}

/// Integer square roots are unique.
pub proof fn lemma_sqrt_unique(a: int, b: int, x: int)
    requires
        is_sqrt(a, x),
        is_sqrt(b, x),
    ensures
        a == b,
{
    assert(a == b) by (nonlinear_arith)
        requires
            a >= 0 && b >= 0 && a * a <= x && x < (a + 1) * (a + 1) && b * b <= x && x < (b + 1) * (
            b + 1),
    ;
}

/// The logarithm stays below the bit width.
proof fn lemma_log2_bound(x: int, k: nat)
    requires
        0 <= x,
        x < vstd::arithmetic::power2::pow2(k),
        k >= 1,
    ensures
        log2_spec(x) < k,
    decreases k,
{
    vstd::arithmetic::power2::lemma_pow2_unfold(k);
    if x < 2 {
    } else {
        if k == 1 {
            assert(vstd::arithmetic::power2::pow2(1) == 2) by {
                vstd::arithmetic::power2::lemma2_to64();
            }
        } else {
            lemma_log2_bound(x / 2, (k - 1) as nat);
        }
    }
}

/// The integer UCT score of a visited child: the win ratio plus the
/// exploration bonus `C * sqrt(ln(parent plays) / child plays)`, everything
/// carried in fixed point at `UCT_SCALE`, with `ln` rendered through the
/// base-two logarithm.
pub open spec fn uct_score(wins: u64, plays: u64, parent_plays: u64) -> int {
    (wins * UCT_SCALE) / (plays as int) + (UCT_EXPLORATION * sqrt_spec(
        (UCT_SCALE * (log2_spec(parent_plays as int) * UCT_LN2)) / (plays as int),
    )) / (UCT_SCALE as int)
}

/// Exec floor of the base-two logarithm.
fn log2_floor(n: u64) -> (r: u64)
    ensures
        r == log2_spec(n as int),
        r <= 63,
{
    proof {
        assert((n as int) < vstd::arithmetic::power2::pow2(64)) by {
            vstd::arithmetic::power2::lemma2_to64_rest();
        }
        lemma_log2_bound(n as int, 64);
        lemma_log2_nonneg(n as int);
    }
    let mut m = n;
    let mut r: u64 = 0;
    while m >= 2
        invariant
            log2_spec(n as int) == r + log2_spec(m as int),
            log2_spec(n as int) <= 63,
            log2_spec(m as int) >= 0,
        decreases m,
    {
        m = m / 2;
        r = r + 1;
        proof {
            lemma_log2_nonneg(m as int);
        }
    }
    r
}

/// The logarithm is never negative.
proof fn lemma_log2_nonneg(x: int)
    ensures
        log2_spec(x) >= 0,
    decreases x,
{
    if x >= 2 {
        lemma_log2_nonneg(x / 2);
    }
}

/// Whether `r * r <= x`, with the square taken without overflow.
fn square_at_most(r: u64, x: u64) -> (b: bool)
    requires
        r <= 0x1_0000_0000,
    ensures
        b == ((r as int) * (r as int) <= x as int),
{
    proof {
        assert((r as int) * (r as int) <= 0x1_0000_0000 * 0x1_0000_0000) by (nonlinear_arith)
            requires
                r <= 0x1_0000_0000,
        ;
    }
    let sq = (r as u128) * (r as u128);
    sq <= x as u128
}

/// Exec integer square root.
fn isqrt64(x: u64) -> (r: u64)
    ensures
        is_sqrt(r as int, x as int),
{
    let mut r: u64 = 0;
    proof {
        assert(forall|q: int| #![trigger q * q] 0 <= q && q * q <= x as int ==> q < 0x1_0000_0000)
            by (nonlinear_arith)
            requires
                x <= u64::MAX,
        ;
    }
    while square_at_most(r + 1, x)
        invariant
            (r as int) * (r as int) <= x,
            r < 0x1_0000_0000,
            forall|q: int| #![trigger q * q] 0 <= q && q * q <= x as int ==> q < 0x1_0000_0000,
        decreases x - r,
    {
        proof {
            assert(((r + 1) as int) * ((r + 1) as int) <= x as int ==> r + 1 <= x as int)
                by (nonlinear_arith);
        }
        r = r + 1;
    }
    r
}

/// Exec mirror of `uct_score`.
fn uct_score_exec(wins: u64, plays: u64, parent_plays: u64) -> (s: u128)
    requires
        plays >= 1,
    ensures
        s == uct_score(wins, plays, parent_plays),
{
    let lg = log2_floor(parent_plays);
    let ln_fp = lg * UCT_LN2;
    let inner = (UCT_SCALE * ln_fp) / plays;
    let root = isqrt64(inner);
    proof {
        assert(inner <= 10000 * 63 * 6931);
        assert(root <= 70000) by (nonlinear_arith)
            requires
                (root as int) * (root as int) <= inner && inner <= 10000 * 63 * 6931,
        ;
        assert(is_sqrt(sqrt_spec(inner as int), inner as int)) by {
            assert(is_sqrt(root as int, inner as int));
        }
        lemma_sqrt_unique(root as int, sqrt_spec(inner as int), inner as int);
    }
    let explore = (UCT_EXPLORATION * root) / UCT_SCALE;
    proof {
        assert((wins as int) * (UCT_SCALE as int) <= 0xffff_ffff_ffff_ffff * 10000)
            by (nonlinear_arith)
            requires
                wins <= 0xffff_ffff_ffff_ffff,
        ;
    }
    let exploit = (wins as u128 * UCT_SCALE as u128) / (plays as u128);
    exploit + explore as u128
}

/// The index the UCT selection policy must pick among children `cs` of a
/// parent with `parent_plays` visits: the first unvisited child when one
/// exists, else the first child of maximal UCT score.
pub open spec fn is_uct_choice(cs: Seq<Node>, parent_plays: u64, i: int) -> bool {
    &&& 0 <= i < cs.len()
    &&& ((exists|j: int| 0 <= j < cs.len() && (#[trigger] cs[j]).plays == 0) ==> (cs[i].plays == 0
        && forall|j: int| 0 <= j < i ==> (#[trigger] cs[j]).plays != 0))
    &&& ((forall|j: int| 0 <= j < cs.len() ==> (#[trigger] cs[j]).plays != 0) ==> {
        &&& forall|j: int|
            0 <= j < cs.len() ==> uct_score((#[trigger] cs[j]).wins, cs[j].plays, parent_plays)
                <= uct_score(cs[i].wins, cs[i].plays, parent_plays)
        &&& forall|j: int|
            0 <= j < i ==> uct_score((#[trigger] cs[j]).wins, cs[j].plays, parent_plays)
                < uct_score(cs[i].wins, cs[i].plays, parent_plays)
    })
}

impl Node {
    /// The index the UCT selection policy picks: the first unvisited child
    /// if any exists, else the first child of maximal UCT score.
    pub fn best_uct_child(&self) -> (i: usize)
        requires
            self.children@.len() > 0,
        ensures
            i < self.children@.len(),
            is_uct_choice(self.children@, self.plays, i as int),
    {
        let mut j: usize = 0;
        while j < self.children.len()
            invariant
                j <= self.children@.len(),
                forall|q: int| 0 <= q < j ==> (#[trigger] self.children@[q]).plays != 0,
            decreases self.children@.len() - j,
        {
            if self.children[j].plays == 0 {
                return j;
            }
            j += 1;
        }
        let mut best: usize = 0;
        let mut best_score = uct_score_exec(self.children[0].wins, self.children[0].plays, self.plays);
        let mut q: usize = 1;
        while q < self.children.len()
            invariant
                1 <= q <= self.children@.len(),
                best < q,
                forall|t: int| 0 <= t < self.children@.len() ==> (#[trigger] self.children@[t]).plays != 0,
                best_score == uct_score(
                    self.children@[best as int].wins,
                    self.children@[best as int].plays,
                    self.plays,
                ),
                forall|t: int|
                    0 <= t < q ==> uct_score(
                        (#[trigger] self.children@[t]).wins,
                        self.children@[t].plays,
                        self.plays,
                    ) <= best_score,
                forall|t: int|
                    0 <= t < best ==> uct_score(
                        (#[trigger] self.children@[t]).wins,
                        self.children@[t].plays,
                        self.plays,
                    ) < best_score,
            decreases self.children@.len() - q,
        {
            let score = uct_score_exec(self.children[q].wins, self.children[q].plays, self.plays);
            if score > best_score {
                best = q;
                best_score = score;
            }
            q += 1;
        }
        best
    }
}

/// Whether each `descendants` counter along the path can take `k` more, and
/// the path's indices are in bounds.
pub open spec fn can_record(n: Node, path: Seq<usize>, k: u64) -> bool
    decreases path.len(),
{
    if path.len() == 0 {
        true
    } else {
        &&& (path[0] as int) < n.children@.len()
        &&& n.descendants + k <= u64::MAX
        &&& can_record(n.children@[path[0] as int], path.drop_first(), k)
    }
}

/// How one backpropagation changes the tree: every node on the path gains a
/// play (and a win when its move's color is the winner), every node on the
/// path but the deepest gains `k` descendants, and nothing else changes.
pub open spec fn record_rel(pre: Node, post: Node, path: Seq<usize>, winner: Color, k: u64) -> bool
    decreases path.len(),
{
    &&& post.m == pre.m
    &&& post.plays == inc_sat(pre.plays)
    &&& post.wins == if pre.m.spec_color() == winner {
        inc_sat(pre.wins)
    } else {
        pre.wins
    }
    &&& if path.len() == 0 {
        post.descendants == pre.descendants && post.children@ == pre.children@
    } else {
        let i = path[0] as int;
        &&& 0 <= i < pre.children@.len()
        &&& post.descendants == pre.descendants + k
        &&& post.children@.len() == pre.children@.len()
        &&& (forall|j: int|
            0 <= j < pre.children@.len() && j != i ==> post.children@[j] == pre.children@[j])
        &&& record_rel(pre.children@[i], post.children@[i], path.drop_first(), winner, k)
    }
}

impl Node {
    /// Backpropagate one playout outcome along a path of child indices.
    pub fn record_on_path(&mut self, path: &Vec<usize>, winner: Color, nodes_added: u64)
        requires
            can_record(*old(self), path@, nodes_added),
        ensures
            record_rel(*old(self), *final(self), path@, winner, nodes_added),
    {
        proof {
            assert(path@.skip(0) =~= path@);
        }
        self.record_rec(path, 0, winner, nodes_added);
    }

    fn record_rec(&mut self, path: &Vec<usize>, from: usize, winner: Color, k: u64)
        requires
            from <= path@.len(),
            can_record(*old(self), path@.skip(from as int), k),
        ensures
            record_rel(*old(self), *final(self), path@.skip(from as int), winner, k),
        decreases path@.len() - from,
    {
        if self.plays < u64::MAX {
            self.plays = self.plays + 1;
        }
        if self.m.color() == winner {
            if self.wins < u64::MAX {
                self.wins = self.wins + 1;
            }
        }
        if from < path.len() {
            let i = path[from];
            proof {
                assert(path@.skip(from as int)[0] == path@[from as int]);
            }
            self.descendants = self.descendants + k;
            let mut child = self.children.remove(i);
            proof {
                assert(path@.skip(from as int).drop_first() =~= path@.skip(from as int + 1));
            }
            child.record_rec(path, from + 1, winner, k);
            self.children.insert(i, child);
            proof {
                let pre = *old(self);
                let cf = self.children@[i as int];
                assert(self.children@ =~= pre.children@.update(i as int, cf));
            }
        }
    }
}

/// A tree whose bookkeeping is exact except along one path, where every
/// counter above the deepest node is short by exactly `k` (the nodes the
/// expansion at the end of the path just added).
pub open spec fn wf_short(n: Node, path: Seq<usize>, k: u64) -> bool
    decreases path.len(),
{
    if path.len() == 0 {
        node_wf(n)
    } else {
        let i = path[0] as int;
        &&& 0 <= i < n.children@.len()
        &&& (forall|j: int|
            0 <= j < n.children@.len() && j != i ==> node_wf(#[trigger] n.children@[j]))
        &&& wf_short(n.children@[i], path.drop_first(), k)
        &&& n.descendants + k == sum_desc(n.children@) + if path.len() == 1 {
            0int
        } else {
            k as int
        }
    }
}

/// Backpropagating the reported `nodes_added` along the path the selection
/// returned makes every `descendants` counter exact again: the tree
/// invariant survives a full select-expand-record cycle.
pub proof fn lemma_record_restores_wf(pre: Node, post: Node, path: Seq<usize>, winner: Color, k: u64)
    requires
        wf_short(pre, path, k),
        record_rel(pre, post, path, winner, k),
    ensures
        node_wf(post),
    decreases path.len(),
{
    if path.len() == 0 {
        assert(sum_desc(post.children@) == sum_desc(pre.children@));
    } else {
        let i = path[0] as int;
        assert(record_rel(pre.children@[i], post.children@[i], path.drop_first(), winner, k));
        assert(path.drop_first().len() == path.len() - 1);
        lemma_record_restores_wf(
            pre.children@[i],
            post.children@[i],
            path.drop_first(),
            winner,
            k,
        );
        assert(post.children@ =~= pre.children@.update(i, post.children@[i]));
        lemma_sum_desc_update(pre.children@, i, post.children@[i]);
        if path.len() == 1 {
            assert(post.children@[i].descendants == pre.children@[i].descendants);
        } else {
            assert(post.children@[i].descendants == pre.children@[i].descendants + k);
        }
        assert forall|j: int| 0 <= j < post.children@.len() implies node_wf(
            #[trigger] post.children@[j],
        ) by {
            if j != i {
                assert(post.children@[j] == pre.children@[j]);
            }
        }
    }
}

/// The node reached by a path of child indices (the node itself for the
/// empty path).
pub open spec fn node_at(n: Node, path: Seq<usize>) -> Node
    decreases path.len(),
{
    if path.len() == 0 {
        n
    } else {
        node_at(n.children@[path[0] as int], path.drop_first())
    }
}

/// Backpropagation increments `wins` exactly at the path nodes whose move
/// color is the winner: a win recorded for the opposite color leaves a
/// node's `wins` unchanged.
pub proof fn lemma_record_wins_follow_color(
    pre: Node,
    post: Node,
    path: Seq<usize>,
    winner: Color,
    k: u64,
    d: int,
)
    requires
        record_rel(pre, post, path, winner, k),
        0 <= d <= path.len(),
    ensures
        node_at(post, path.take(d)).wins == if node_at(pre, path.take(d)).m.spec_color()
            == winner {
            inc_sat(node_at(pre, path.take(d)).wins)
        } else {
            node_at(pre, path.take(d)).wins
        },
        node_at(post, path.take(d)).plays == inc_sat(node_at(pre, path.take(d)).plays),
    decreases d,
{
    if d == 0 {
        assert(path.take(0) =~= Seq::<usize>::empty());
    } else {
        let i = path[0] as int;
        assert(path.take(d)[0] == path[0]);
        assert(path.take(d).drop_first() =~= path.drop_first().take(d - 1));
        lemma_record_wins_follow_color(
            pre.children@[i],
            post.children@[i],
            path.drop_first(),
            winner,
            k,
            d - 1,
        );
    }
}

/// What one visit leaves at the reached leaf: nothing when the position is
/// finished or the (just incremented) play count is still below the
/// threshold, else exactly the expansion children.
pub open spec fn leaf_outcome(
    pre: Node,
    post: Node,
    added: u64,
    board: Board,
    expand_after: u64,
    play_out_aftermath: bool,
) -> bool {
    if board.spec_over() || inc_sat(pre.plays) < expand_after {
        post.children@.len() == 0 && post.descendants == pre.descendants && added == 0
    } else {
        &&& child_moves(post.children@) =~= spec_expansion_moves(board, play_out_aftermath)
        &&& forall|i: int|
            0 <= i < post.children@.len() ==> fresh_child(#[trigger] post.children@[i])
        &&& post.descendants == post.children@.len()
        &&& added == post.children@.len()
    }
}

/// A descent stopped short because the chosen child's move is no longer
/// legal on the board handed in; the node is left as it was (but for its
/// play count) and nothing is added.
pub open spec fn descent_aborted(pre: Node, post: Node, added: u64, board: Board) -> bool {
    &&& added == 0
    &&& post.children@ == pre.children@
    &&& post.descendants == pre.descendants
    &&& exists|i: int|
        #[trigger] is_uct_choice(pre.children@, inc_sat(pre.plays), i) && board.spec_check(
            pre.children@[i].m,
        ) is Err
}

/// How one selection-and-expansion visit relates the tree before and after:
/// along the returned path every node gains one play, the path follows the
/// UCT choice through legal child moves (the returned moves are exactly
/// those children's moves), the positions evolve by those moves from the
/// board handed in, and the reached childless node takes the leaf outcome.
pub open spec fn descent_rel(
    pre: Node,
    post: Node,
    path: Seq<usize>,
    moves: Seq<Move>,
    added: u64,
    board: Board,
    expand_after: u64,
    play_out_aftermath: bool,
) -> bool
    decreases path.len(),
{
    &&& post.m == pre.m
    &&& post.plays == inc_sat(pre.plays)
    &&& post.wins == pre.wins
    &&& moves.len() == path.len()
    &&& if path.len() == 0 {
        ||| (pre.children@.len() == 0 && leaf_outcome(
            pre,
            post,
            added,
            board,
            expand_after,
            play_out_aftermath,
        ))
        ||| (pre.children@.len() > 0 && descent_aborted(pre, post, added, board))
    } else {
        let i = path[0] as int;
        &&& is_uct_choice(pre.children@, inc_sat(pre.plays), i)
        &&& moves[0] == pre.children@[i].m
        &&& board.spec_check(pre.children@[i].m) is Ok
        &&& post.children@.len() == pre.children@.len()
        &&& (forall|j: int|
            0 <= j < pre.children@.len() && j != i ==> post.children@[j] == pre.children@[j])
        &&& post.descendants == pre.descendants
        &&& exists|b2: Board|
            #[trigger] b2.spec_advanced_by(board, pre.children@[i].m) && b2.well_formed()
                && descent_rel(
                pre.children@[i],
                post.children@[i],
                path.drop_first(),
                moves.drop_first(),
                added,
                b2,
                expand_after,
                play_out_aftermath,
            )
    }
}

/// The descent relation reads only the rule-relevant fields of the board,
/// so it transfers between alike boards.
pub proof fn lemma_alike_descent(
    pre: Node,
    post: Node,
    path: Seq<usize>,
    moves: Seq<Move>,
    added: u64,
    a: Board,
    b: Board,
    expand_after: u64,
    play_out_aftermath: bool,
)
    requires
        boards_alike(a, b),
        descent_rel(pre, post, path, moves, added, a, expand_after, play_out_aftermath),
    ensures
        descent_rel(pre, post, path, moves, added, b, expand_after, play_out_aftermath),
{
    lemma_alike_boards(a, b, Move::NoMove);
    lemma_alike_expansion(a, b, play_out_aftermath);
    if path.len() == 0 {
        if pre.children@.len() > 0 {
            let i = choose|i: int|
                #[trigger] is_uct_choice(pre.children@, inc_sat(pre.plays), i) && a.spec_check(
                    pre.children@[i].m,
                ) is Err;
            lemma_alike_boards(a, b, pre.children@[i].m);
            assert(is_uct_choice(pre.children@, inc_sat(pre.plays), i) && b.spec_check(
                pre.children@[i].m,
            ) is Err);
        }
    } else {
        let i = path[0] as int;
        lemma_alike_boards(a, b, pre.children@[i].m);
        let b2 = choose|b2: Board|
            #[trigger] b2.spec_advanced_by(a, pre.children@[i].m) && b2.well_formed()
                && descent_rel(
                pre.children@[i],
                post.children@[i],
                path.drop_first(),
                moves.drop_first(),
                added,
                b2,
                expand_after,
                play_out_aftermath,
            );
        assert(b2.spec_advanced_by(b, pre.children@[i].m));
    }
}

impl Node {
    /// One selection-and-expansion step: descend from this node by
    /// `best_uct_child` until a childless node is reached, expand it when its
    /// (just incremented) play count has reached the threshold and the
    /// position is not finished, and return the path of child indices taken,
    /// the moves along it, whether expansion happened, and how many nodes it
    /// added.  Afterwards the tree is exact except that every `descendants`
    /// counter strictly above the reached leaf is short by exactly the
    /// returned count — which is what `record_on_path` adds back.
    pub fn find_leaf_and_expand(
        &mut self,
        game: &Game,
        expand_after: u64,
        play_out_aftermath: bool,
    ) -> (r: (Vec<usize>, Vec<Move>, bool, u64))
        requires
            game.well_formed(),
            node_wf(*old(self)),
            old(self).descendants <= DESC_CAP,
        ensures
            descent_rel(
                *old(self),
                *final(self),
                r.0@,
                r.1@,
                r.3,
                game.board,
                expand_after,
                play_out_aftermath,
            ),
            wf_short(*final(self), r.0@, r.3),
            can_record(*final(self), r.0@, r.3),
            final(self).plays == inc_sat(old(self).plays),
            final(self).m == old(self).m,
            r.1@.len() == r.0@.len(),
            r.2 == (r.3 != 0),
    {
        let board = game.board();
        let ghost gb = board;
        let mut node = Node::new(Move::NoMove);
        core::mem::swap(self, &mut node);
        let ghost start = node;
        let (node_after, path, moves, expanded, added) = Node::descend(
            node,
            board,
            expand_after,
            play_out_aftermath,
        );
        *self = node_after;
        proof {
            lemma_alike_descent(
                start,
                node_after,
                path@,
                moves@,
                added,
                gb,
                game.board,
                expand_after,
                play_out_aftermath,
            );
        }
        (path, moves, expanded, added)
    }

    /// The recursive core of `find_leaf_and_expand`, on an owned subtree and
    /// the board of its position.
    fn descend(node: Node, board: Board, expand_after: u64, play_out_aftermath: bool) -> (r: (
        Node,
        Vec<usize>,
        Vec<Move>,
        bool,
        u64,
    ))
        requires
            board.well_formed(),
            node_wf(node),
            node.descendants <= DESC_CAP,
        ensures
            descent_rel(node, r.0, r.1@, r.2@, r.4, board, expand_after, play_out_aftermath),
            wf_short(r.0, r.1@, r.4),
            can_record(r.0, r.1@, r.4),
            r.0.plays == inc_sat(node.plays),
            r.0.m == node.m,
            r.0.descendants == node.descendants + if r.1@.len() == 0 {
                r.4 as int
            } else {
                0int
            },
            r.2@.len() == r.1@.len(),
            r.3 == (r.4 != 0),
            r.4 <= board_points(board.size) + 1,
        decreases node.descendants,
    {
        let ghost pre = node;
        let ghost b0 = board;
        let mut node = node;
        if node.plays < u64::MAX {
            node.plays = node.plays + 1;
        }
        if node.children.len() == 0 {
            proof {
                assert(sum_desc(node.children@) == 0);
            }
            let added = node.expand_with(&board, expand_after, play_out_aftermath);
            proof {
                if board.spec_over() || node.plays < expand_after {
                    assert(added == 0);
                }
                assert(node_wf(node));
                assert(leaf_outcome(pre, node, added, b0, expand_after, play_out_aftermath));
                assert(descent_rel(
                    pre,
                    node,
                    Seq::<usize>::empty(),
                    Seq::<Move>::empty(),
                    added,
                    b0,
                    expand_after,
                    play_out_aftermath,
                ));
            }
            return (node, Vec::new(), Vec::new(), added > 0, added);
        }
        let i = node.best_uct_child();
        proof {
            assert(node.children@ == pre.children@);
            assert(node_wf(pre.children@[i as int]));
            lemma_sum_desc_elem(pre.children@, i as int);
        }
        let child = node.children.remove(i);
        let mv = child.m();
        let mut next_board = board;
        match next_board.play_move(mv) {
            Err(_) => {
                node.children.insert(i, child);
                proof {
                    assert(node.children@ =~= pre.children@);
                    assert(sum_desc(node.children@) == sum_desc(pre.children@));
                    assert(node_wf(node));
                    assert(is_uct_choice(pre.children@, inc_sat(pre.plays), i as int)
                        && b0.spec_check(pre.children@[i as int].m) is Err);
                    assert(descent_aborted(pre, node, 0, b0));
                    assert(descent_rel(
                        pre,
                        node,
                        Seq::<usize>::empty(),
                        Seq::<Move>::empty(),
                        0,
                        b0,
                        expand_after,
                        play_out_aftermath,
                    ));
                }
                (node, Vec::new(), Vec::new(), false, 0)
            },
            Ok(()) => {
                let ghost b2 = next_board;
                let (child_after, mut path, mut moves, expanded, added) = Node::descend(
                    child,
                    next_board,
                    expand_after,
                    play_out_aftermath,
                );
                node.children.insert(i, child_after);
                let ghost subpath = path@;
                let ghost submoves = moves@;
                path.insert(0, i);
                moves.insert(0, mv);
                proof {
                    let cf = node.children@[i as int];
                    assert(cf == child_after);
                    assert(node.children@ =~= pre.children@.update(i as int, child_after));
                    lemma_sum_desc_update(pre.children@, i as int, child_after);
                    assert(path@.drop_first() =~= subpath);
                    assert(path@[0] == i);
                    assert(next_board.size == b0.size);
                    assert forall|j: int|
                        0 <= j < node.children@.len() && j != i implies node_wf(
                        #[trigger] node.children@[j],
                    ) by {
                        assert(node.children@[j] == pre.children@[j]);
                    }
                    if path@.len() == 1 {
                        assert(child_after.descendants == pre.children@[i as int].descendants
                            + added);
                        assert(node.descendants + added == sum_desc(node.children@));
                    } else {
                        assert(child_after.descendants == pre.children@[i as int].descendants);
                        assert(node.descendants + added == sum_desc(node.children@) + added);
                    }
                    assert(wf_short(node, path@, added));
                    lemma_points_bound(next_board.size);
                    assert(node.descendants + added <= u64::MAX);
                    assert(can_record(node, path@, added));
                    assert(moves@.drop_first() =~= submoves);
                    assert(moves@[0] == mv && mv == pre.children@[i as int].m);
                    assert(is_uct_choice(pre.children@, inc_sat(pre.plays), i as int));
                    assert(b0.spec_check(pre.children@[i as int].m) is Ok);
                    assert(b2.spec_advanced_by(b0, pre.children@[i as int].m) && b2.well_formed()
                        && descent_rel(
                        pre.children@[i as int],
                        child_after,
                        path@.drop_first(),
                        moves@.drop_first(),
                        added,
                        b2,
                        expand_after,
                        play_out_aftermath,
                    ));
                    assert(descent_rel(
                        pre,
                        node,
                        path@,
                        moves@,
                        added,
                        b0,
                        expand_after,
                        play_out_aftermath,
                    ));
                }
                (node, path, moves, expanded, added)
            },
        }
    }
}

/// The win-ratio numerator used for comparing children: zero for an
/// unvisited node.
pub open spec fn rnum(n: Node) -> int {
    if n.plays == 0 {
        0
    } else {
        n.wins as int
    }
}

/// The matching denominator (one for an unvisited node, so the ratio is
/// defined as zero).
pub open spec fn rden(n: Node) -> int {
    if n.plays == 0 {
        1
    } else {
        n.plays as int
    }
}

/// `a` is judged strictly better than `b`: a higher win ratio, or an equal
/// ratio backed by more plays.
pub open spec fn better_ratio(a: Node, b: Node) -> bool {
    ||| rnum(a) * rden(b) > rnum(b) * rden(a)
    ||| (rnum(a) * rden(b) == rnum(b) * rden(a) && a.plays > b.plays)
}

/// The judgment is transitive.
pub proof fn lemma_better_trans(a: Node, b: Node, c: Node)
    requires
        better_ratio(a, b),
        better_ratio(b, c),
    ensures
        better_ratio(a, c),
{
    let (na, da) = (rnum(a), rden(a));
    let (nb, db) = (rnum(b), rden(b));
    let (nc, dc) = (rnum(c), rden(c));
    assert(da >= 1 && db >= 1 && dc >= 1 && na >= 0 && nb >= 0 && nc >= 0);
    if na * db > nb * da && nb * dc > nc * db {
        assert(na * dc > nc * da) by (nonlinear_arith)
            requires
                na * db > nb * da && nb * dc > nc * db && da >= 1 && db >= 1 && dc >= 1,
        ;
    } else if na * db > nb * da && nb * dc == nc * db {
        assert(na * dc > nc * da) by (nonlinear_arith)
            requires
                na * db > nb * da && nb * dc == nc * db && da >= 1 && db >= 1 && dc >= 1,
        ;
    } else if na * db == nb * da && nb * dc > nc * db {
        assert(na * dc > nc * da) by (nonlinear_arith)
            requires
                na * db == nb * da && nb * dc > nc * db && da >= 1 && db >= 1 && dc >= 1,
        ;
    } else {
        assert(na * dc == nc * da) by (nonlinear_arith)
            requires
                na * db == nb * da && nb * dc == nc * db && da >= 1 && db >= 1 && dc >= 1,
        ;
    }
}

/// The first index of maximal win ratio (ties by higher play count), found
/// by folding from the left.
pub open spec fn best_child_idx(cs: Seq<Node>) -> int
    decreases cs.len(),
{
    if cs.len() <= 1 {
        0
    } else {
        let b = best_child_idx(cs.drop_last());
        if better_ratio(cs.last(), cs[b]) {
            cs.len() - 1
        } else {
            b
        }
    }
}

/// The fold lands in range, and nothing beats what it picks.
pub proof fn lemma_best_child_idx(cs: Seq<Node>)
    requires
        cs.len() > 0,
    ensures
        0 <= best_child_idx(cs) < cs.len(),
        forall|j: int| 0 <= j < cs.len() ==> !better_ratio(#[trigger] cs[j], cs[best_child_idx(cs)]),
    decreases cs.len(),
{
    if cs.len() > 1 {
        lemma_best_child_idx(cs.drop_last());
        let b = best_child_idx(cs.drop_last());
        assert forall|j: int| 0 <= j < cs.len() implies !better_ratio(
            #[trigger] cs[j],
            cs[best_child_idx(cs)],
        ) by {
            if better_ratio(cs.last(), cs[b]) {
                if j < cs.len() - 1 && better_ratio(cs[j], cs.last()) {
                    assert(cs.drop_last()[j] == cs[j]);
                    lemma_better_trans(cs[j], cs.last(), cs[b]);
                }
            } else {
                if j < cs.len() - 1 {
                    assert(cs.drop_last()[j] == cs[j]);
                }
            }
        }
    }
}

/// Exec mirror of `better_ratio`.
fn better_exec(a: &Node, b: &Node) -> (r: bool)
    ensures
        r == better_ratio(*a, *b),
{
    let (an, ad) = if a.plays == 0 {
        (0u64, 1u64)
    } else {
        (a.wins, a.plays)
    };
    let (bn, bd) = if b.plays == 0 {
        (0u64, 1u64)
    } else {
        (b.wins, b.plays)
    };
    proof {
        assert((an as int) * (bd as int) < 0x1_0000_0000_0000_0000_0000_0000_0000_0000)
            by (nonlinear_arith)
            requires
                an <= 0xffff_ffff_ffff_ffff && bd <= 0xffff_ffff_ffff_ffff,
        ;
        assert((bn as int) * (ad as int) < 0x1_0000_0000_0000_0000_0000_0000_0000_0000)
            by (nonlinear_arith)
            requires
                bn <= 0xffff_ffff_ffff_ffff && ad <= 0xffff_ffff_ffff_ffff,
        ;
    }
    let left = (an as u128) * (bd as u128);
    let right = (bn as u128) * (ad as u128);
    left > right || (left == right && a.plays > b.plays)
}

impl Node {
    /// The child with the best win ratio, a higher play count breaking
    /// ties, the earlier child breaking what remains.
    pub fn best(&self) -> (r: &Node)
        requires
            self.children@.len() > 0,
        ensures
            *r == self.children@[best_child_idx(self.children@)],
            forall|j: int|
                0 <= j < self.children@.len() ==> !better_ratio(#[trigger] self.children@[j], *r),
    {
        let mut best: usize = 0;
        let mut q: usize = 1;
        while q < self.children.len()
            invariant
                1 <= q <= self.children@.len(),
                self.children@.len() > 0,
                best < q,
                best == best_child_idx(self.children@.take(q as int)),
            decreases self.children@.len() - q,
        {
            proof {
                assert(self.children@.take(q + 1).drop_last() =~= self.children@.take(q as int));
                assert(self.children@.take(q + 1).last() == self.children@[q as int]);
            }
            if better_exec(&self.children[q], &self.children[best]) {
                best = q;
            }
            q += 1;
        }
        proof {
            assert(self.children@.take(self.children@.len() as int) =~= self.children@);
            lemma_best_child_idx(self.children@);
        }
        &self.children[best]
    }

    /// True when even the best child's win ratio is at or below the cutoff
    /// (given in permille): the signal to pass or resign rather than play on.
    pub fn mostly_losses(&self, cutoff_permille: u64) -> (r: bool)
        requires
            self.children@.len() > 0,
        ensures
            r == (rnum(self.children@[best_child_idx(self.children@)]) * 1000 <= cutoff_permille
                * rden(self.children@[best_child_idx(self.children@)])),
    {
        let b = self.best();
        let (n, d) = if b.plays == 0 {
            (0u64, 1u64)
        } else {
            (b.wins, b.plays)
        };
        proof {
            assert((cutoff_permille as int) * (d as int)
                < 0x1_0000_0000_0000_0000_0000_0000_0000_0000) by (nonlinear_arith)
                requires
                    cutoff_permille <= 0xffff_ffff_ffff_ffff && d <= 0xffff_ffff_ffff_ffff,
            ;
        }
        (n as u128) * 1000 <= (cutoff_permille as u128) * (d as u128)
    }

    /// The first child whose move is `m`.
    pub fn find_child(&self, m: Move) -> (r: &Node)
        requires
            exists|i: int| 0 <= i < self.children@.len() && (#[trigger] self.children@[i]).m == m,
        ensures
            r.m == m,
            exists|i: int| 0 <= i < self.children@.len() && *r == (#[trigger] self.children@[i]),
    {
        let mut j: usize = 0;
        while j < self.children.len()
            invariant
                j <= self.children@.len(),
                exists|i: int|
                    0 <= i < self.children@.len() && (#[trigger] self.children@[i]).m == m,
                forall|t: int| 0 <= t < j ==> (#[trigger] self.children@[t]).m != m,
            decreases self.children@.len() - j,
        {
            if self.children[j].m() == m {
                return &self.children[j];
            }
            j += 1;
        }
        proof {
            assert(false);
        }
        &self.children[0]
    }
}

/// The index of the first child whose move is `m`, or -1.
pub open spec fn find_move_idx(cs: Seq<Node>, m: Move) -> int
    decreases cs.len(),
{
    if cs.len() == 0 {
        -1
    } else if cs[0].m == m {
        0
    } else {
        let r = find_move_idx(cs.drop_first(), m);
        if r < 0 {
            -1
        } else {
            r + 1
        }
    }
}

/// A scan that stops at the first match agrees with `find_move_idx`.
proof fn lemma_find_move_idx_at(cs: Seq<Node>, m: Move, j: int)
    requires
        0 <= j < cs.len(),
        cs[j].m == m,
        forall|t: int| 0 <= t < j ==> (#[trigger] cs[t]).m != m,
    ensures
        find_move_idx(cs, m) == j,
    decreases cs.len(),
{
    if j > 0 {
        lemma_find_move_idx_at(cs.drop_first(), m, j - 1);
    }
}

/// A scan that finds nothing agrees with `find_move_idx`.
proof fn lemma_find_move_idx_none(cs: Seq<Node>, m: Move)
    requires
        forall|t: int| 0 <= t < cs.len() ==> (#[trigger] cs[t]).m != m,
    ensures
        find_move_idx(cs, m) == -1,
    decreases cs.len(),
{
    if cs.len() > 0 {
        lemma_find_move_idx_none(cs.drop_first(), m);
    }
}

/// The subtree reached by following, from move `i` on, each recorded move
/// down a matching child edge; `None` as soon as an edge is missing.
pub open spec fn descend_moves(n: Node, moves: Seq<Move>, i: int) -> Option<Node>
    decreases moves.len() - i,
{
    if i < 0 || i >= moves.len() {
        Some(n)
    } else {
        let j = find_move_idx(n.children@, moves[i]);
        if j < 0 {
            None
        } else {
            descend_moves(n.children@[j], moves, i + 1)
        }
    }
}

impl Node {
    /// Try to reuse the previous search's subtree: walk down the child edges
    /// matching the moves actually played since the tree was last synced
    /// (entry `seen` of the game record onwards), and re-validate the
    /// children of the node reached against the actual game state.  When an
    /// edge is missing, the node reached has never been expanded, or nothing
    /// legal survives the re-validation, fall back to a fresh, fully
    /// expanded root for `color`.  Reuse is an optimization: either way the
    /// caller gets a well-formed tree for the current position, with no
    /// superko-violating child and no pass the policy now withholds.
    #[verifier::loop_isolation(false)]
    pub fn find_new_root(self, game: &Game, color: Color, seen: usize, play_out_aftermath: bool) -> (r: Node)
        requires
            game.well_formed(),
            color.is_player(),
            node_wf(self),
        ensures
            reused_or_fresh(self, r, *game, color, seen as int, play_out_aftermath),
            node_wf(r),
    {
        let ghost start = self;
        let moves = game.moves();
        let mut node = self;
        let mut i: usize = seen;
        if i > moves.len() {
            proof {
                assert(descend_moves(start, game.moves@, seen as int) == Some(start));
            }
            return node.reuse_or_rebuild(game, color, play_out_aftermath);
        }
        while i < moves.len()
            invariant
                game.well_formed(),
                color.is_player(),
                i <= moves@.len(),
                moves@ == game.moves@,
                node_wf(node),
                descend_moves(start, game.moves@, seen as int) == descend_moves(
                    node,
                    game.moves@,
                    i as int,
                ),
            decreases moves@.len() - i,
        {
            let m = moves[i];
            let mut j: usize = 0;
            let mut found = false;
            while j < node.children.len() && !found
                invariant
                    j <= node.children@.len(),
                    found ==> (j < node.children@.len() && node.children@[j as int].m == m
                        && forall|t: int| 0 <= t < j ==> (#[trigger] node.children@[t]).m != m),
                    !found ==> forall|t: int| 0 <= t < j ==> (#[trigger] node.children@[t]).m != m,
                decreases node.children@.len() - j + if found {
                    0int
                } else {
                    1int
                },
            {
                if node.children[j].m() == m {
                    found = true;
                } else {
                    j += 1;
                }
            }
            if !found {
                proof {
                    lemma_find_move_idx_none(node.children@, m);
                    assert(descend_moves(node, game.moves@, i as int) is None);
                    assert(descend_moves(start, game.moves@, seen as int) is None);
                }
                return Node::root(game, color, play_out_aftermath);
            }
            proof {
                lemma_find_move_idx_at(node.children@, m, j as int);
                assert(node_wf(node.children@[j as int]));
            }
            let child = node.children.remove(j);
            node = child;
            i += 1;
        }
        proof {
            assert(descend_moves(node, game.moves@, i as int) == Some(node));
        }
        node.reuse_or_rebuild(game, color, play_out_aftermath)
    }

    /// The tail of subtree reuse: a never-expanded node, or one whose
    /// children all fail re-validation, gives way to a fresh root; anything
    /// else is kept with its now-illegal children pruned.
    fn reuse_or_rebuild(self, game: &Game, color: Color, play_out_aftermath: bool) -> (r: Node)
        requires
            game.well_formed(),
            color.is_player(),
            node_wf(self),
        ensures
            node_wf(r),
            self.children@.len() > 0 && kept_children(
                game.board,
                play_out_aftermath,
                self.children@,
            ).len() > 0 ==> (r.m == self.m && r.plays == self.plays && r.wins == self.wins
                && r.children@ == kept_children(game.board, play_out_aftermath, self.children@)),
            !(self.children@.len() > 0 && kept_children(
                game.board,
                play_out_aftermath,
                self.children@,
            ).len() > 0) ==> fresh_root_for(r, *game, color, play_out_aftermath),
    {
        if self.has_no_children() {
            proof {
                assert(kept_children(game.board, play_out_aftermath, self.children@)
                    =~= Seq::<Node>::empty());
            }
            return Node::root(game, color, play_out_aftermath);
        }
        let mut node = self;
        node.remove_illegal_children(game, play_out_aftermath);
        if node.has_no_children() {
            return Node::root(game, color, play_out_aftermath);
        }
        node
    }
}

/// What replacing the root with `find_new_root` must leave behind: the
/// subtree reached by the recorded moves, its now-illegal children pruned,
/// or a fresh fully expanded root when no reusable subtree exists.
pub open spec fn reused_or_fresh(
    old_root: Node,
    new_root: Node,
    game: Game,
    color: Color,
    seen: int,
    play_out_aftermath: bool,
) -> bool {
    match descend_moves(old_root, game.moves@, seen) {
        Some(n) => if n.children@.len() > 0 && kept_children(
            game.board,
            play_out_aftermath,
            n.children@,
        ).len() > 0 {
            &&& new_root.m == n.m
            &&& new_root.plays == n.plays
            &&& new_root.wins == n.wins
            &&& new_root.children@ == kept_children(game.board, play_out_aftermath, n.children@)
        } else {
            fresh_root_for(new_root, game, color, play_out_aftermath)
        },
        None => fresh_root_for(new_root, game, color, play_out_aftermath),
    }
}

/// What a fallback to a fresh root guarantees.
pub open spec fn fresh_root_for(r: Node, game: Game, color: Color, play_out_aftermath: bool) -> bool {
    &&& r.plays == 1 && r.wins == 1
    &&& r.m == Move::NoMove
    &&& child_moves(r.children@) =~= spec_expansion_moves(
        (Board { next: color, ..game.board }),
        play_out_aftermath,
    )
}

/// Whether a child created for move `m` may stay when the tree is checked
/// against the actual game state: plays must still be legal, and a pass must
/// still be what the endgame policy would offer.
pub open spec fn keep_move(b: Board, play_out_aftermath: bool, m: Move) -> bool {
    match m {
        Move::Play(_, _, _) => b.spec_legal(m),
        Move::Pass(c) => !b.spec_over() && b.spec_pass_allowed(c, play_out_aftermath),
        _ => false,
    }
}

/// The children that survive the check, in order.
pub open spec fn kept_children(b: Board, play_out_aftermath: bool, cs: Seq<Node>) -> Seq<Node>
    decreases cs.len(),
{
    if cs.len() == 0 {
        Seq::empty()
    } else {
        (if keep_move(b, play_out_aftermath, cs[0].m) {
            seq![cs[0]]
        } else {
            Seq::empty()
        }) + kept_children(b, play_out_aftermath, cs.drop_first())
    }
}

/// Every survivor satisfies the keep predicate: in particular no
/// superko-violating play and no disallowed pass survives.
pub proof fn lemma_kept_children_sound(b: Board, play_out_aftermath: bool, cs: Seq<Node>)
    ensures
        forall|i: int|
            0 <= i < kept_children(b, play_out_aftermath, cs).len() ==> keep_move(
                b,
                play_out_aftermath,
                (#[trigger] kept_children(b, play_out_aftermath, cs)[i]).m,
            ),
    decreases cs.len(),
{
    if cs.len() > 0 {
        lemma_kept_children_sound(b, play_out_aftermath, cs.drop_first());
    }
}

/// Dropping children never increases the descendant sum.
proof fn lemma_kept_children_sum(b: Board, play_out_aftermath: bool, cs: Seq<Node>)
    ensures
        sum_desc(kept_children(b, play_out_aftermath, cs)) <= sum_desc(cs),
        sum_desc(kept_children(b, play_out_aftermath, cs)) >= 0,
    decreases cs.len(),
{
    lemma_sum_desc_nonneg(cs);
    lemma_sum_desc_nonneg(kept_children(b, play_out_aftermath, cs));
    if cs.len() > 0 {
        lemma_kept_children_sum(b, play_out_aftermath, cs.drop_first());
        lemma_sum_desc_drop_first(cs);
        let rest = kept_children(b, play_out_aftermath, cs.drop_first());
        if keep_move(b, play_out_aftermath, cs[0].m) {
            assert(kept_children(b, play_out_aftermath, cs) =~= seq![cs[0]] + rest);
            lemma_sum_desc_cons(cs[0], rest);
        } else {
            assert(kept_children(b, play_out_aftermath, cs) =~= rest);
        }
    }
}

/// The sum taken from the front: one child plus the rest.
proof fn lemma_sum_desc_cons(n: Node, rest: Seq<Node>)
    ensures
        sum_desc(seq![n] + rest) == n.descendants + 1 + sum_desc(rest),
    decreases rest.len(),
{
    if rest.len() == 0 {
        assert(seq![n] + rest =~= seq![n]);
        assert((seq![n]).drop_last() =~= Seq::<Node>::empty());
        assert(sum_desc(Seq::<Node>::empty()) == 0);
        assert((seq![n]).last() == n);
        assert(sum_desc(seq![n]) == n.descendants + 1);
        assert(sum_desc(rest) == 0);
    } else {
        assert((seq![n] + rest).drop_last() =~= seq![n] + rest.drop_last());
        assert((seq![n] + rest).last() == rest.last());
        lemma_sum_desc_cons(n, rest.drop_last());
        assert(sum_desc(seq![n] + rest) == sum_desc(seq![n] + rest.drop_last())
            + rest.last().descendants + 1);
    }
}

/// The sum distributes over concatenation.
proof fn lemma_sum_desc_concat(a: Seq<Node>, b: Seq<Node>)
    ensures
        sum_desc(a + b) == sum_desc(a) + sum_desc(b),
    decreases b.len(),
{
    if b.len() == 0 {
        assert(a + b =~= a);
    } else {
        assert((a + b).drop_last() =~= a + b.drop_last());
        assert((a + b).last() == b.last());
        lemma_sum_desc_concat(a, b.drop_last());
    }
}

/// The sum taken from the front, for any sequence.
proof fn lemma_sum_desc_drop_first(cs: Seq<Node>)
    requires
        cs.len() > 0,
    ensures
        sum_desc(cs) == cs[0].descendants + 1 + sum_desc(cs.drop_first()),
{
    assert(cs =~= seq![cs[0]] + cs.drop_first());
    lemma_sum_desc_cons(cs[0], cs.drop_first());
}

impl Node {
    /// Re-validate the children against the actual game state, discarding
    /// any that are now illegal (superko) or a pass the endgame policy no
    /// longer offers, and re-count the descendants accordingly.
    pub fn remove_illegal_children(&mut self, game: &Game, play_out_aftermath: bool)
        requires
            game.well_formed(),
            node_wf(*old(self)),
        ensures
            final(self).children@ == kept_children(
                game.board,
                play_out_aftermath,
                old(self).children@,
            ),
            node_wf(*final(self)),
            final(self).m == old(self).m,
            final(self).plays == old(self).plays,
            final(self).wins == old(self).wins,
    {
        let board = game.board();
        proof {
            lemma_alike_boards(board, game.board, Move::NoMove);
        }
        let mut pending = Vec::new();
        core::mem::swap(&mut self.children, &mut pending);
        let ghost original = pending@;
        let mut kept: Vec<Node> = Vec::new();
        let mut total: u64 = 0;
        proof {
            lemma_kept_children_sum(game.board, play_out_aftermath, original);
            assert(kept@ + kept_children(game.board, play_out_aftermath, pending@) =~= kept_children(
                game.board,
                play_out_aftermath,
                original,
            ));
        }
        while pending.len() > 0
            invariant
                game.well_formed(),
                board.well_formed(),
                boards_alike(board, game.board),
                node_wf(*old(self)),
                kept@ + kept_children(game.board, play_out_aftermath, pending@) == kept_children(
                    game.board,
                    play_out_aftermath,
                    original,
                ),
                total == sum_desc(kept@),
                sum_desc(kept_children(game.board, play_out_aftermath, original)) <= sum_desc(
                    original,
                ),
                sum_desc(original) == old(self).descendants,
                forall|t: int| 0 <= t < kept@.len() ==> node_wf(#[trigger] kept@[t]),
                forall|t: int| 0 <= t < pending@.len() ==> node_wf(#[trigger] pending@[t]),
            decreases pending@.len(),
        {
            let ghost before = pending@;
            let child = pending.remove(0);
            let keep = match child.m() {
                Move::Play(_, _, _) => board.is_legal(child.m()),
                Move::Pass(c) => !board.is_game_over() && board.pass_allowed(
                    c,
                    play_out_aftermath,
                ),
                _ => false,
            };
            proof {
                lemma_alike_boards(board, game.board, child.m);
                assert(keep == keep_move(game.board, play_out_aftermath, child.m));
                lemma_sum_desc_drop_first_kept(game.board, play_out_aftermath, before);
            }
            if keep {
                proof {
                    let rest_kept = kept_children(
                        game.board,
                        play_out_aftermath,
                        before.drop_first(),
                    );
                    assert(kept@.push(child) + rest_kept =~= kept@ + kept_children(
                        game.board,
                        play_out_aftermath,
                        before,
                    ));
                    lemma_sum_desc_concat(kept@.push(child), rest_kept);
                    lemma_sum_desc_nonneg(rest_kept);
                    assert(sum_desc(kept@.push(child)) == sum_desc(kept@) + child.descendants + 1)
                        by {
                        assert(kept@.push(child).drop_last() =~= kept@);
                    }
                    assert(sum_desc(kept@) + child.descendants + 1 <= old(self).descendants);
                }
                total = total + child.descendants + 1;
                kept.push(child);
            } else {
                proof {
                    assert(kept@ + kept_children(
                        game.board,
                        play_out_aftermath,
                        before.drop_first(),
                    ) =~= kept@ + kept_children(game.board, play_out_aftermath, before));
                }
            }
        }
        proof {
            assert(kept_children(game.board, play_out_aftermath, pending@) =~= Seq::<
                Node,
            >::empty());
            assert(kept@ + Seq::<Node>::empty() =~= kept@);
            assert(kept@ =~= kept_children(game.board, play_out_aftermath, original));
        }
        self.children = kept;
        self.descendants = total;
    }
}

/// Splitting the kept-children computation at the first child.
proof fn lemma_sum_desc_drop_first_kept(b: Board, play_out_aftermath: bool, cs: Seq<Node>)
    requires
        cs.len() > 0,
    ensures
        keep_move(b, play_out_aftermath, cs[0].m) ==> kept_children(b, play_out_aftermath, cs)
            == seq![cs[0]] + kept_children(b, play_out_aftermath, cs.drop_first()),
        !keep_move(b, play_out_aftermath, cs[0].m) ==> kept_children(b, play_out_aftermath, cs)
            == kept_children(b, play_out_aftermath, cs.drop_first()),
{
    if !keep_move(b, play_out_aftermath, cs[0].m) {
        assert(kept_children(b, play_out_aftermath, cs) =~= kept_children(
            b,
            play_out_aftermath,
            cs.drop_first(),
        ));
    }
}

/// On a fresh 2x2 board the side to move has exactly the four vacant points
/// as expansion moves, and playing the corner leaves just its stone.
pub proof fn lemma_fresh_two_by_two_expansion(b: Board)
    requires
        b.well_formed(),
        b.size == 2,
        b.consecutive_passes == 0,
        b.resigned == Color::Empty,
        b.moves_played == 0,
        forall|p: int| 0 <= p < b.grid@.len() ==> b.grid@[p] == Color::Empty,
        crate::board::history_views(b.history@) =~= seq![b.grid@],
    ensures
        spec_expansion_moves(b, false) =~= seq![
            Move::Play(b.next, 1, 1),
            Move::Play(b.next, 2, 1),
            Move::Play(b.next, 1, 2),
            Move::Play(b.next, 2, 2),
        ],
        spec_grid_after(b.grid@, b.size, b.next, 0) == b.grid@.update(0, b.next),
{
    let c = b.next;
    let g = b.grid@;
    assert(g =~= seq![Color::Empty, Color::Empty, Color::Empty, Color::Empty]);
    let coords = seq![
        Coord { col: 1, row: 1 },
        Coord { col: 2, row: 1 },
        Coord { col: 1, row: 2 },
        Coord { col: 2, row: 2 },
    ];
    assert(vacant_from(g, 2, 4) =~= Seq::<Coord>::empty());
    assert(vacant_from(g, 2, 3) =~= seq![coords[3]]);
    assert(vacant_from(g, 2, 2) =~= seq![coords[2], coords[3]]);
    assert(vacant_from(g, 2, 1) =~= seq![coords[1], coords[2], coords[3]]);
    assert(vacant_from(g, 2, 0) =~= coords);
    lemma_two_by_two_quiet(b, 1, 1);
    lemma_two_by_two_quiet(b, 2, 1);
    lemma_two_by_two_quiet(b, 1, 2);
    lemma_two_by_two_quiet(b, 2, 2);
    assert(legal_plays(b, coords.skip(3)) =~= seq![Move::Play(c, 2, 2)]) by {
        let vs = coords.skip(3);
        assert(vs.len() == 1 && vs[0] == (Coord { col: 2u8, row: 2u8 }));
        assert(b.spec_legal(Move::Play(b.next, vs[0].col, vs[0].row)));
        assert(vs.drop_first() =~= Seq::<Coord>::empty());
        assert(legal_plays(b, vs.drop_first()) =~= Seq::<Move>::empty());
    }
    assert(legal_plays(b, coords.skip(2)) =~= seq![Move::Play(c, 1, 2), Move::Play(c, 2, 2)]) by {
        let vs = coords.skip(2);
        assert(vs.len() == 2 && vs[0] == (Coord { col: 1u8, row: 2u8 }));
        assert(b.spec_legal(Move::Play(b.next, vs[0].col, vs[0].row)));
        assert(vs.drop_first() =~= coords.skip(3));
        assert(legal_plays(b, vs.drop_first()) == legal_plays(b, coords.skip(3)));
    }
    assert(legal_plays(b, coords.skip(1)) =~= seq![
        Move::Play(c, 2, 1),
        Move::Play(c, 1, 2),
        Move::Play(c, 2, 2),
    ]) by {
        let vs = coords.skip(1);
        assert(vs.len() == 3 && vs[0] == (Coord { col: 2u8, row: 1u8 }));
        assert(b.spec_legal(Move::Play(b.next, vs[0].col, vs[0].row)));
        assert(vs.drop_first() =~= coords.skip(2));
        assert(legal_plays(b, vs.drop_first()) == legal_plays(b, coords.skip(2)));
    }
    assert(legal_plays(b, coords) =~= seq![
        Move::Play(c, 1, 1),
        Move::Play(c, 2, 1),
        Move::Play(c, 1, 2),
        Move::Play(c, 2, 2),
    ]) by {
        assert(coords.len() == 4 && coords[0] == (Coord { col: 1u8, row: 1u8 }));
        assert(b.spec_legal(Move::Play(b.next, coords[0].col, coords[0].row)));
        assert(coords.drop_first() =~= coords.skip(1));
        assert(legal_plays(b, coords.drop_first()) == legal_plays(b, coords.skip(1)));
    }
    assert(!b.spec_past_opening());
    assert(spec_expansion_moves(b, false) =~= legal_plays(b, coords) + Seq::<Move>::empty());
}

/// One quiet play on the fresh 2x2 board.
proof fn lemma_two_by_two_quiet(b: Board, col: u8, row: u8)
    requires
        b.well_formed(),
        b.size == 2,
        b.consecutive_passes == 0,
        b.resigned == Color::Empty,
        forall|p: int| 0 <= p < b.grid@.len() ==> b.grid@[p] == Color::Empty,
        crate::board::history_views(b.history@) =~= seq![b.grid@],
        1 <= col <= 2 && 1 <= row <= 2,
    ensures
        b.spec_check(Move::Play(b.next, col, row)) is Ok,
        spec_grid_after(b.grid@, b.size, b.next, (Coord { col, row }).spec_index(2)) == b.grid@.update(
            (Coord { col, row }).spec_index(2),
            b.next,
        ),
{
    let idx = (Coord { col, row }).spec_index(2);
    let placed = b.grid@.update(idx, b.next);
    assert(0 <= idx < 4);
    assert forall|p: int| adjacent(2, idx, p) implies placed[p] != b.next by {
        assert(p == idx - 1 || p == idx + 1 || p == idx - 2 || p == idx + 2);
        assert(placed[p] == Color::Empty);
        assert(b.next.is_player());
    }
    assert(exists|p: int| adjacent(2, idx, p) && placed[p] == Color::Empty) by {
        if idx == 0 {
            assert(adjacent(2, 0, 2) && placed[2] == Color::Empty);
        } else if idx == 1 {
            assert(adjacent(2, 1, 3) && placed[3] == Color::Empty);
        } else if idx == 2 {
            assert(adjacent(2, 2, 0) && placed[0] == Color::Empty);
        } else {
            assert(adjacent(2, 3, 1) && placed[1] == Color::Empty);
        }
    }
    assert forall|p: int|
        0 <= p < b.grid@.len() && placed[p] == b.next.spec_opposite() implies chain_has_liberty(
        placed,
        2,
        p,
    ) by {
        assert(placed[p] == Color::Empty || placed[p] == b.next);
        assert(b.next.spec_opposite() != Color::Empty && b.next.spec_opposite() != b.next);
    }
    assert(!b.spec_repeats(placed)) by {
        assert(crate::board::history_views(b.history@).len() == b.history@.len());
        assert forall|i: int| 0 <= i < b.history@.len() implies !((#[trigger] b.history@[i])@
            =~= placed) by {
            assert(b.history@[i]@ == crate::board::history_views(b.history@)[i]);
            assert(i == 0);
            assert(crate::board::history_views(b.history@)[0] == b.grid@);
            assert(b.history@[i]@[idx] == Color::Empty);
            assert(placed[idx] == b.next);
            assert(b.next != Color::Empty);
        }
    }
    crate::board::lemma_quiet_play_ok(b, col, row);
}

/// After one stone lands on the corner of a 2x2 board, the opponent has
/// exactly the three remaining points as expansion moves.
pub proof fn lemma_reply_two_by_two_expansion(b: Board)
    requires
        b.well_formed(),
        b.size == 2,
        b.consecutive_passes == 0,
        b.resigned == Color::Empty,
        b.moves_played == 1,
        b.next.is_player(),
        b.grid@ =~= seq![b.next.spec_opposite(), Color::Empty, Color::Empty, Color::Empty],
        crate::board::history_views(b.history@) =~= seq![
            seq![Color::Empty, Color::Empty, Color::Empty, Color::Empty],
            b.grid@,
        ],
    ensures
        spec_expansion_moves(b, false) =~= seq![
            Move::Play(b.next, 2, 1),
            Move::Play(b.next, 1, 2),
            Move::Play(b.next, 2, 2),
        ],
{
    let c = b.next;
    let g = b.grid@;
    let coords = seq![Coord { col: 2, row: 1 }, Coord { col: 1, row: 2 }, Coord { col: 2, row: 2 }];
    assert(vacant_from(g, 2, 4) =~= Seq::<Coord>::empty());
    assert(vacant_from(g, 2, 3) =~= seq![coords[2]]);
    assert(vacant_from(g, 2, 2) =~= seq![coords[1], coords[2]]);
    assert(vacant_from(g, 2, 1) =~= coords);
    assert(vacant_from(g, 2, 0) =~= coords);
    lemma_reply_two_by_two_quiet(b, 2, 1);
    lemma_reply_two_by_two_quiet(b, 1, 2);
    lemma_reply_two_by_two_quiet(b, 2, 2);
    assert(legal_plays(b, coords.skip(2)) =~= seq![Move::Play(c, 2, 2)]) by {
        let vs = coords.skip(2);
        assert(vs.len() == 1 && vs[0] == (Coord { col: 2u8, row: 2u8 }));
        assert(b.spec_legal(Move::Play(b.next, vs[0].col, vs[0].row)));
        assert(vs.drop_first() =~= Seq::<Coord>::empty());
        assert(legal_plays(b, vs.drop_first()) =~= Seq::<Move>::empty());
    }
    assert(legal_plays(b, coords.skip(1)) =~= seq![Move::Play(c, 1, 2), Move::Play(c, 2, 2)]) by {
        let vs = coords.skip(1);
        assert(vs.len() == 2 && vs[0] == (Coord { col: 1u8, row: 2u8 }));
        assert(b.spec_legal(Move::Play(b.next, vs[0].col, vs[0].row)));
        assert(vs.drop_first() =~= coords.skip(2));
        assert(legal_plays(b, vs.drop_first()) == legal_plays(b, coords.skip(2)));
    }
    assert(legal_plays(b, coords) =~= seq![
        Move::Play(c, 2, 1),
        Move::Play(c, 1, 2),
        Move::Play(c, 2, 2),
    ]) by {
        assert(coords.len() == 3 && coords[0] == (Coord { col: 2u8, row: 1u8 }));
        assert(b.spec_legal(Move::Play(b.next, coords[0].col, coords[0].row)));
        assert(coords.drop_first() =~= coords.skip(1));
        assert(legal_plays(b, coords.drop_first()) == legal_plays(b, coords.skip(1)));
    }
    assert(!b.spec_past_opening());
    assert(spec_expansion_moves(b, false) =~= legal_plays(b, coords) + Seq::<Move>::empty());
}

/// One quiet reply on the one-stone 2x2 board.
proof fn lemma_reply_two_by_two_quiet(b: Board, col: u8, row: u8)
    requires
        b.well_formed(),
        b.size == 2,
        b.consecutive_passes == 0,
        b.resigned == Color::Empty,
        b.next.is_player(),
        b.grid@ =~= seq![b.next.spec_opposite(), Color::Empty, Color::Empty, Color::Empty],
        crate::board::history_views(b.history@) =~= seq![
            seq![Color::Empty, Color::Empty, Color::Empty, Color::Empty],
            b.grid@,
        ],
        1 <= col <= 2 && 1 <= row <= 2,
        !(col == 1 && row == 1),
    ensures
        b.spec_check(Move::Play(b.next, col, row)) is Ok,
{
    let idx = (Coord { col, row }).spec_index(2);
    let placed = b.grid@.update(idx, b.next);
    assert(1 <= idx < 4);
    assert forall|p: int| adjacent(2, idx, p) implies placed[p] != b.next by {
        assert(p == idx - 1 || p == idx + 1 || p == idx - 2 || p == idx + 2);
    }
    assert(exists|p: int| adjacent(2, idx, p) && placed[p] == Color::Empty) by {
        if idx == 1 {
            assert(adjacent(2, 1, 3) && placed[3] == Color::Empty);
        } else if idx == 2 {
            assert(adjacent(2, 2, 3) && placed[3] == Color::Empty);
        } else {
            assert(adjacent(2, 3, 1) && placed[1] == Color::Empty);
        }
    }
    assert forall|p: int|
        0 <= p < b.grid@.len() && placed[p] == b.next.spec_opposite() implies chain_has_liberty(
        placed,
        2,
        p,
    ) by {
        assert(p == 0);
        assert forall|q: int| adjacent(2, 0, q) implies placed[q] != placed[0int] by {
            assert(q == 1 || q == 2);
        }
        crate::board::lemma_singleton_chain(placed, 2, 0);
        if idx == 1 {
            crate::board::lemma_singleton_liberty(placed, 2, 0, 2);
        } else {
            crate::board::lemma_singleton_liberty(placed, 2, 0, 1);
        }
    }
    assert(!b.spec_repeats(placed)) by {
        assert(crate::board::history_views(b.history@).len() == b.history@.len());
        assert forall|i: int| 0 <= i < b.history@.len() implies !((#[trigger] b.history@[i])@
            =~= placed) by {
            assert(b.history@[i]@ == crate::board::history_views(b.history@)[i]);
            assert(i == 0 || i == 1);
            if i == 0 {
                assert(crate::board::history_views(b.history@)[0] =~= seq![
                    Color::Empty,
                    Color::Empty,
                    Color::Empty,
                    Color::Empty,
                ]);
            } else {
                assert(crate::board::history_views(b.history@)[1] == b.grid@);
            }
            assert(b.history@[i]@[idx] == Color::Empty);
            assert(placed[idx] == b.next);
            assert(b.next != Color::Empty);
        }
    }
    crate::board::lemma_quiet_play_ok(b, col, row);
}

/// The first search cycle on a fresh 2x2 board, derived from the tree
/// contracts alone: the root built for the side to move has exactly four
/// children, and the first selection visits the corner child, expands it to
/// the three replies, and reports three nodes added with the root on its
/// second play.
pub proof fn lemma_first_search_on_two_by_two(
    game: Game,
    root: Node,
    post: Node,
    path: Seq<usize>,
    moves: Seq<Move>,
    added: u64,
)
    requires
        game.well_formed(),
        game.board.size == 2,
        game.board.next == Color::Black,
        game.board.consecutive_passes == 0,
        game.board.resigned == Color::Empty,
        game.board.moves_played == 0,
        forall|p: int| 0 <= p < game.board.grid@.len() ==> game.board.grid@[p] == Color::Empty,
        crate::board::history_views(game.board.history@) =~= seq![game.board.grid@],
        root.plays == 1 && root.wins == 1,
        child_moves(root.children@) =~= spec_expansion_moves(
            (Board { next: Color::Black, ..game.board }),
            false,
        ),
        forall|i: int| 0 <= i < root.children@.len() ==> fresh_child(#[trigger] root.children@[i]),
        descent_rel(root, post, path, moves, added, game.board, 1, false),
    ensures
        root.children@.len() == 4,
        post.plays == 2,
        added == 3,
{
    let b0 = game.board;
    assert((Board { next: Color::Black, ..game.board }) == b0);
    lemma_fresh_two_by_two_expansion(b0);
    assert(root.children@.len() == 4);
    lemma_two_by_two_quiet(b0, 1, 1);
    lemma_two_by_two_quiet(b0, 2, 1);
    lemma_two_by_two_quiet(b0, 1, 2);
    lemma_two_by_two_quiet(b0, 2, 2);
    assert forall|t: int| 0 <= t < 4 implies b0.spec_check(
        (#[trigger] root.children@[t]).m,
    ) is Ok by {
        assert(root.children@[t].m == child_moves(root.children@)[t]);
        assert(root.children@[t].m == spec_expansion_moves(b0, false)[t]);
        assert(t == 0 || t == 1 || t == 2 || t == 3);
    }
    assert(post.plays == inc_sat(1) && inc_sat(1) == 2);
    if path.len() == 0 {
        assert(descent_aborted(root, post, added, b0));
        let i = choose|i: int|
            #[trigger] is_uct_choice(root.children@, inc_sat(root.plays), i) && b0.spec_check(
                root.children@[i].m,
            ) is Err;
        assert(false);
    }
    let i = path[0] as int;
    assert(is_uct_choice(root.children@, inc_sat(root.plays), i));
    assert(i == 0) by {
        assert(root.children@[0].plays == 0);
        if i > 0 {
            assert(root.children@[0].plays != 0);
        }
    }
    assert(root.children@[0].m == spec_expansion_moves(b0, false)[0]);
    assert(root.children@[0].m == Move::Play(Color::Black, 1, 1));
    let b2 = choose|b2: Board|
        #[trigger] b2.spec_advanced_by(b0, root.children@[0].m) && b2.well_formed() && descent_rel(
            root.children@[0],
            post.children@[0],
            path.drop_first(),
            moves.drop_first(),
            added,
            b2,
            1,
            false,
        );
    assert((Coord { col: 1u8, row: 1u8 }).spec_index(2) == 0);
    assert(b2.grid@ =~= seq![Color::Black, Color::Empty, Color::Empty, Color::Empty]) by {
        assert(b2.grid@ =~= spec_grid_after(b0.grid@, 2, Color::Black, 0));
        assert(spec_grid_after(b0.grid@, 2, Color::Black, 0) == b0.grid@.update(0, Color::Black));
        assert(b0.grid@.update(0, Color::Black) =~= seq![
            Color::Black,
            Color::Empty,
            Color::Empty,
            Color::Empty,
        ]);
    }
    assert(b2.next == Color::White && b2.consecutive_passes == 0 && b2.resigned == Color::Empty
        && b2.moves_played == 1 && b2.size == 2);
    assert(crate::board::history_views(b2.history@) =~= seq![
        seq![Color::Empty, Color::Empty, Color::Empty, Color::Empty],
        b2.grid@,
    ]) by {
        assert(crate::board::history_views(b2.history@) =~= crate::board::history_views(
            b0.history@,
        ).push(b2.grid@));
        assert(crate::board::history_views(b0.history@)[0] =~= seq![
            Color::Empty,
            Color::Empty,
            Color::Empty,
            Color::Empty,
        ]);
    }
    lemma_reply_two_by_two_expansion(b2);
    let child = root.children@[0];
    let sub = path.drop_first();
    if sub.len() > 0 {
        assert(is_uct_choice(child.children@, inc_sat(child.plays), sub[0] as int));
        assert(false);
    }
    assert(child.children@.len() == 0);
    assert(leaf_outcome(child, post.children@[0], added, b2, 1, false));
    assert(!b2.spec_over());
    assert(inc_sat(child.plays) == 1);
    assert(added == post.children@[0].children@.len());
    assert(child_moves(post.children@[0].children@).len() == 3);
}

} // verus!
