//! Playouts: random simulation of a game to its end, under a small closed
//! set of move-selection policies.  Every policy promises the same contract:
//! it never plays an illegal move, stays within the move cap, and hands back
//! a finished game's winner without playing anything.

use vstd::prelude::*;

use crate::board::Board;
use crate::board::Color;
use crate::board::Coord;
use crate::board::Move;
use crate::board::adjacent;
use crate::board::board_points;
use crate::board::chain_of;
use crate::board::lemma_points_bound;
use crate::board::spec_grid_after;
use crate::board::vacant_from;
use crate::config::Config;
use crate::game::boards_alike;
use crate::patterns::Pattern;
use crate::patterns::pattern_wf;
use crate::game::lemma_alike_boards;
use crate::random::Rand;

verus! {

/// The outcome of one playout: the moves played, in order, and the winner.
#[derive(Clone, Debug)]
pub struct PlayoutResult {
    pub moves: Vec<Move>,
    pub winner: Color,
}

impl PlayoutResult {
    pub fn new(moves: Vec<Move>, winner: Color) -> (r: PlayoutResult)
        ensures
            r.moves@ == moves@,
            r.winner == winner,
    {
        PlayoutResult { moves, winner }
    }

    pub open spec fn spec_moves(self) -> Seq<Move> {
        self.moves@
    }

    pub open spec fn spec_winner(self) -> Color {
        self.winner
    }

    pub fn moves(&self) -> (r: &Vec<Move>)
        ensures
            r@ == self.spec_moves(),
    {
        &self.moves
    }

    pub fn winner(&self) -> (r: Color)
        ensures
            r == self.spec_winner(),
    {
        self.winner
    }
}

/// The move-selection policies on offer: the light policy only refuses to
/// fill its own eyes; the fuller one additionally refuses moves that leave
/// the played chain in self-atari.
#[derive(Clone, Copy, Debug, PartialEq, Eq, Structural)]
pub enum PlayoutKind {
    NoEyes,
    NoSelfAtari,
}

/// A playout runner with its selection policy fixed at construction, and
/// an optional set of patterns used only to bias which candidate the scan
/// prefers, never to alter legality.
#[derive(Debug, PartialEq, Eq)]
pub struct Playout {
    pub kind: PlayoutKind,
    pub patterns: Vec<Pattern>,
}

impl Playout {
    /// Every carried pattern has the 3x3 shape.
    pub open spec fn well_formed(self) -> bool {
        forall|i: int| 0 <= i < self.patterns@.len() ==> pattern_wf(#[trigger] self.patterns@[i])
    }
}

/// Pick the playout policy: "light" selects the eye-filling-only filter,
/// anything else the self-atari-avoiding one.
pub fn factory(opt: Option<String>, config: Config) -> (r: Playout)
    ensures
        r.kind == (match opt {
            Option::Some(s) => if s@ == "light"@ {
                PlayoutKind::NoEyes
            } else {
                PlayoutKind::NoSelfAtari
            },
            Option::None => PlayoutKind::NoSelfAtari,
        }),
        r.patterns@.len() == 0,
        r.well_formed(),
{
    let light = String::from_str("light");
    match opt {
        Option::Some(s) => {
            if s.eq(&light) {
                Playout { kind: PlayoutKind::NoEyes, patterns: Vec::new() }
            } else {
                Playout { kind: PlayoutKind::NoSelfAtari, patterns: Vec::new() }
            }
        },
        Option::None => Playout { kind: PlayoutKind::NoSelfAtari, patterns: Vec::new() },
    }
}

/// Every point orthogonally next to `idx` holds a stone of color `c`: the
/// simplest rendering of "`idx` is an eye of `c`".
pub open spec fn spec_own_eye(grid: Seq<Color>, size: u8, c: Color, idx: int) -> bool {
    forall|p: int| adjacent(size, idx, p) ==> grid[p] == c
}

/// The empty points next to the chain `s`, as a point-indexed map.
pub open spec fn liberty_map(grid: Seq<Color>, size: u8, s: Set<int>) -> Seq<bool> {
    Seq::new(
        grid.len(),
        |q: int|
            grid[q] == Color::Empty && exists|t: int| s.contains(t) && adjacent(size, t, q),
    )
}

/// How many of the first `i` entries are set.
pub open spec fn count_true(s: Seq<bool>, i: int) -> int
    decreases i,
{
    if i <= 0 {
        0
    } else {
        count_true(s, i - 1) + if s[i - 1] {
            1int
        } else {
            0int
        }
    }
}

/// Playing `c` on the vacant point `idx` leaves the played chain with fewer
/// than two liberties.
pub open spec fn spec_self_atari(grid: Seq<Color>, size: u8, c: Color, idx: int) -> bool {
    let after = spec_grid_after(grid, size, c, idx);
    count_true(
        liberty_map(after, size, chain_of(after, size, idx)),
        after.len() as int,
    ) < 2
}

/// Exec mirror of `spec_own_eye`.
fn is_own_eye(board: &Board, c: Color, idx: usize) -> (r: bool)
    requires
        board.well_formed(),
        idx < board_points(board.size),
    ensures
        r == spec_own_eye(board.grid@, board.size, c, idx as int),
{
    proof {
        lemma_points_bound(board.size);
    }
    let size = board.size;
    let points = (size as usize) * (size as usize);
    let s = size as usize;
    let q = idx;
    if q % s != 0 && !(board.grid[q - 1] == c) {
        proof {
            assert(q >= 1) by {
                if q == 0 {
                    assert(0int % (size as int) == 0);
                }
            }
            assert(adjacent(size, q as int, q - 1));
        }
        return false;
    }
    if (q + 1) % s != 0 && q + 1 < points && !(board.grid[q + 1] == c) {
        proof {
            assert(adjacent(size, q as int, q + 1));
        }
        return false;
    }
    if q >= s && !(board.grid[q - s] == c) {
        proof {
            assert(adjacent(size, q as int, q - s));
        }
        return false;
    }
    if q + s < points && !(board.grid[q + s] == c) {
        proof {
            assert(adjacent(size, q as int, q + s));
        }
        return false;
    }
    proof {
        assert forall|p: int| adjacent(size, q as int, p) implies board.grid@[p] == c by {
            assert(p == q - 1 || p == q + 1 || p == q - size || p == q + size);
        }
    }
    true
}

/// Exec mirror of `spec_self_atari`.
fn is_self_atari(board: &Board, c: Color, idx: usize) -> (r: bool)
    requires
        board.well_formed(),
        idx < board_points(board.size),
    ensures
        r == spec_self_atari(board.grid@, board.size, c, idx as int),
{
    proof {
        lemma_points_bound(board.size);
    }
    let after = crate::board::compute_grid_after(&board.grid, board.size, c, idx);
    let marks = crate::board::chain_marks(&after, board.size, idx);
    let points = (board.size as usize) * (board.size as usize);
    let mut count: usize = 0;
    let mut q: usize = 0;
    let ghost lm = liberty_map(after@, board.size, chain_of(after@, board.size, idx as int));
    while q < points
        invariant
            board.well_formed(),
            q <= points,
            points == board_points(board.size),
            after@.len() == board_points(board.size),
            marks@.len() == board_points(board.size),
            idx < board_points(board.size),
            crate::board::marks_set(marks@) == chain_of(after@, board.size, idx as int),
            lm == liberty_map(after@, board.size, chain_of(after@, board.size, idx as int)),
            count == count_true(lm, q as int),
            count <= q,
        decreases points - q,
    {
        let lib = after[q] == Color::Empty && crate::board::any_marked_neighbour(
            board.size,
            q,
            &marks,
        );
        proof {
            assert(lib == lm[q as int]);
        }
        if lib {
            count += 1;
        }
        q += 1;
    }
    count < 2
}

/// The board `post` is `pre` advanced by exactly the given moves, in order,
/// each legal in the position where it was played.
pub open spec fn replay_rel(pre: Board, post: Board, moves: Seq<Move>) -> bool
    decreases moves.len(),
{
    if moves.len() == 0 {
        boards_alike(post, pre)
    } else {
        &&& pre.spec_check(moves[0]) is Ok
        &&& exists|mid: Board|
            (#[trigger] mid.spec_advanced_by(pre, moves[0])) && mid.well_formed() && replay_rel(
                mid,
                post,
                moves.drop_first(),
            )
    }
}

/// Extending a replay by one more legal move.
proof fn lemma_replay_snoc(pre: Board, mid: Board, post: Board, moves: Seq<Move>, m: Move)
    requires
        replay_rel(pre, mid, moves),
        mid.spec_check(m) is Ok,
        post.spec_advanced_by(mid, m),
        post.well_formed(),
    ensures
        replay_rel(pre, post, moves.push(m)),
    decreases moves.len(),
{
    if moves.len() == 0 {
        lemma_alike_boards(mid, pre, m);
        assert(pre.spec_check(m) is Ok);
        assert(post.spec_advanced_by(pre, m));
        assert(boards_alike(post, post)) by {
            assert(crate::board::history_views(post.history@) =~= crate::board::history_views(
                post.history@,
            ));
        }
        assert(replay_rel(post, post, Seq::<Move>::empty()));
        assert(moves.push(m) =~= seq![m]);
        assert(moves.push(m).drop_first() =~= Seq::<Move>::empty());
        assert(replay_rel(pre, post, moves.push(m)));
    } else {
        let mid1 = choose|mid1: Board|
            (#[trigger] mid1.spec_advanced_by(pre, moves[0])) && mid1.well_formed() && replay_rel(
                mid1,
                mid,
                moves.drop_first(),
            );
        lemma_replay_snoc(mid1, mid, post, moves.drop_first(), m);
        assert(moves.push(m)[0] == moves[0]);
        assert(moves.push(m).drop_first() =~= moves.drop_first().push(m));
        assert(replay_rel(pre, post, moves.push(m)));
    }
}

impl Playout {
    /// The policy used by the engine unless configured otherwise.  No
    /// pattern database ships with this crate (it lives with the pattern
    /// collaborator), so the built-in constructors carry none.
    pub fn new(config: &Config) -> (r: Playout)
        ensures
            r.kind == PlayoutKind::NoSelfAtari,
            r.patterns@.len() == 0,
            r.well_formed(),
    {
        Playout { kind: PlayoutKind::NoSelfAtari, patterns: Vec::new() }
    }

    /// A policy carrying patterns that bias the candidate scan.
    pub fn with_patterns(kind: PlayoutKind, patterns: Vec<Pattern>) -> (r: Playout)
        requires
            forall|i: int| 0 <= i < patterns@.len() ==> pattern_wf(#[trigger] patterns@[i]),
        ensures
            r.kind == kind,
            r.patterns@ == patterns@,
            r.well_formed(),
    {
        Playout { kind, patterns }
    }

    /// Whether any carried pattern matches the board around `coord`.
    fn any_pattern_matches(&self, board: &Board, coord: &Coord) -> (r: bool)
        requires
            board.well_formed(),
            self.well_formed(),
            coord.spec_is_inside(board.size),
        ensures
            r == exists|i: int|
                0 <= i < self.patterns@.len() && crate::patterns::spec_matches(
                    #[trigger] self.patterns@[i],
                    *board,
                    *coord,
                ),
    {
        let mut i: usize = 0;
        while i < self.patterns.len()
            invariant
                board.well_formed(),
                self.well_formed(),
                coord.spec_is_inside(board.size),
                i <= self.patterns@.len(),
                forall|t: int|
                    0 <= t < i ==> !crate::patterns::spec_matches(
                        #[trigger] self.patterns@[t],
                        *board,
                        *coord,
                    ),
            decreases self.patterns@.len() - i,
        {
            if self.patterns[i].matches(board, coord) {
                return true;
            }
            i += 1;
        }
        false
    }

    /// The cap on the number of moves one playout may take.
    pub fn max_moves(&self, size: u8) -> (r: usize)
        ensures
            r == 3 * board_points(size),
    {
        proof {
            lemma_points_bound(size);
        }
        (size as usize) * (size as usize) * 3
    }

    /// A short name for the policy in use.
    pub fn playout_type(&self) -> &'static str {
        match self.kind {
            PlayoutKind::NoEyes => "no-eyes",
            PlayoutKind::NoSelfAtari => "no-self-atari",
        }
    }

    /// Ladder reading lives with the board collaborator, outside this crate;
    /// neither policy here attempts it.
    pub fn check_for_ladders(&self) -> (r: bool)
        ensures
            !r,
    {
        false
    }

    /// The fuller policy scans its own chains for a one-liberty rescue
    /// before picking a random point; the light policy does not.
    pub fn check_for_atari(&self) -> (r: bool)
        ensures
            r == (self.kind == PlayoutKind::NoSelfAtari),
    {
        match self.kind {
            PlayoutKind::NoEyes => false,
            PlayoutKind::NoSelfAtari => true,
        }
    }

    /// Whether the policy lets a legal move through: never into an own eye,
    /// and, for the fuller policy, never into self-atari.
    pub fn is_playable(&self, board: &Board, m: &Move) -> (r: bool)
        requires
            board.well_formed(),
        ensures
            r == self.spec_playable(*board, *m),
    {
        match *m {
            Move::Play(c, col, row) => {
                let coord = Coord::new(col, row);
                if !coord.is_inside(board.size) {
                    return true;
                }
                let idx = coord.to_index(board.size);
                if is_own_eye(board, c, idx) {
                    return false;
                }
                match self.kind {
                    PlayoutKind::NoEyes => true,
                    PlayoutKind::NoSelfAtari => !is_self_atari(board, c, idx),
                }
            },
            _ => true,
        }
    }

    /// What `is_playable` answers, as a predicate.
    pub open spec fn spec_playable(self, board: Board, m: Move) -> bool {
        match m {
            Move::Play(c, col, row) => {
                let coord = Coord { col, row };
                if !coord.spec_is_inside(board.size) {
                    true
                } else {
                    let idx = coord.spec_index(board.size);
                    &&& !spec_own_eye(board.grid@, board.size, c, idx)
                    &&& (self.kind == PlayoutKind::NoSelfAtari ==> !spec_self_atari(
                        board.grid@,
                        board.size,
                        c,
                        idx,
                    ))
                }
            },
            _ => true,
        }
    }

    /// Look for a rescue of an own chain in atari: a chain of at least two
    /// stones down to a single liberty whose liberty point is legal,
    /// policy-approved and not itself self-atari.  One such move is picked
    /// at random.  Deeper ladder reading stays with the board collaborator.
    fn atari_rescue(&self, board: &Board, rng: &mut Rand) -> (r: Option<Move>)
        requires
            board.well_formed(),
        ensures
            match r {
                Option::Some(m) => {
                    &&& board.spec_legal(m)
                    &&& m.spec_color() == board.next
                    &&& m is Play
                    &&& self.spec_playable(*board, m)
                },
                Option::None => true,
            },
    {
        proof {
            lemma_points_bound(board.size);
        }
        let color = board.next_player();
        let size = board.size;
        let s = size as usize;
        let points = s * s;
        let mut candidates: Vec<Move> = Vec::new();
        let mut p: usize = 0;
        while p < points
            invariant
                board.well_formed(),
                color == board.next,
                size == board.size,
                s == size,
                points == board_points(size),
                p <= points,
                forall|t: int|
                    0 <= t < candidates@.len() ==> {
                        let m = #[trigger] candidates@[t];
                        board.spec_legal(m) && m.spec_color() == board.next && m is Play
                            && self.spec_playable(*board, m)
                    },
            decreases points - p,
        {
            if board.grid[p] == color && self.chain_head(board, p) {
                match self.single_liberty_of(board, p) {
                    Option::Some(lib) => {
                        proof {
                            assert((lib as int) % (size as int) < size && (lib as int) / (
                            size as int) < size) by (nonlinear_arith)
                                requires
                                    0 <= lib < (size as int) * (size as int) && 1 <= size,
                            ;
                        }
                        let col = (lib % s) as u8 + 1;
                        let row = (lib / s) as u8 + 1;
                        let m = Move::Play(color, col, row);
                        let coord = Coord::new(col, row);
                        proof {
                            assert(coord.spec_index(size) == lib) by (nonlinear_arith)
                                requires
                                    coord.col == (lib as int) % (size as int) + 1 && coord.row == (
                                    lib as int) / (size as int) + 1 && coord.spec_index(size) == (
                                    coord.row - 1) * (size as int) + (coord.col - 1) && 0 <= lib < (
                                    size as int) * (size as int) && 1 <= size,
                            ;
                        }
                        if board.is_legal(m) && self.is_playable(board, &m) && !is_self_atari(
                            board,
                            color,
                            lib,
                        ) {
                            candidates.push(m);
                        }
                    },
                    Option::None => {},
                }
            }
            p += 1;
        }
        if candidates.len() > 0 {
            let pick = rng.below(candidates.len());
            Some(candidates[pick])
        } else {
            None
        }
    }

    /// Whether `p` is the first stone of its chain, so each chain is
    /// examined once.
    fn chain_head(&self, board: &Board, p: usize) -> (r: bool)
        requires
            board.well_formed(),
            p < board_points(board.size),
    {
        let marks = crate::board::chain_marks(&board.grid, board.size, p);
        let mut q: usize = 0;
        while q < p
            invariant
                q <= p,
                p < marks@.len(),
            decreases p - q,
        {
            if marks[q] {
                return false;
            }
            q += 1;
        }
        true
    }

    /// The single liberty of the chain at `p`, when the chain has at least
    /// two stones and exactly one liberty.
    fn single_liberty_of(&self, board: &Board, p: usize) -> (r: Option<usize>)
        requires
            board.well_formed(),
            p < board_points(board.size),
        ensures
            match r {
                Option::Some(lib) => lib < board_points(board.size),
                Option::None => true,
            },
    {
        proof {
            lemma_points_bound(board.size);
        }
        let size = board.size;
        let points = (size as usize) * (size as usize);
        let marks = crate::board::chain_marks(&board.grid, size, p);
        let mut stones: usize = 0;
        let mut libs: usize = 0;
        let mut lib_point: usize = 0;
        let mut q: usize = 0;
        while q < points
            invariant
                board.well_formed(),
                size == board.size,
                points == board_points(size),
                q <= points,
                marks@.len() == board_points(size),
                stones <= q,
                libs <= q,
                libs > 0 ==> lib_point < board_points(size),
            decreases points - q,
        {
            if marks[q] {
                stones += 1;
            } else if board.grid[q] == Color::Empty && crate::board::any_marked_neighbour(
                size,
                q,
                &marks,
            ) {
                libs += 1;
                lib_point = q;
            }
            q += 1;
        }
        if stones >= 2 && libs == 1 {
            Some(lib_point)
        } else {
            None
        }
    }

    /// Whether playing the vacant point `c` is both legal and let through
    /// by the policy filter.
    pub open spec fn spec_point_ok(self, board: Board, c: Coord) -> bool {
        &&& board.spec_legal(Move::Play(board.next, c.col, c.row))
        &&& self.spec_playable(board, Move::Play(board.next, c.col, c.row))
    }

    /// No vacant point is both legal and policy-approved.
    pub open spec fn spec_no_playable_point(self, board: Board) -> bool {
        forall|t: int|
            0 <= t < vacant_from(board.grid@, board.size, 0).len() ==> !self.spec_point_ok(
                board,
                #[trigger] vacant_from(board.grid@, board.size, 0)[t],
            )
    }

    /// The seki fallback fired: the fuller policy found a legal, playable
    /// point that is nevertheless self-atari, which opens the door to a
    /// pass.
    pub open spec fn spec_seki_fallback(self, board: Board) -> bool {
        &&& self.kind == PlayoutKind::NoSelfAtari
        &&& exists|t: int|
            0 <= t < vacant_from(board.grid@, board.size, 0).len() && self.spec_point_ok(
                board,
                #[trigger] vacant_from(board.grid@, board.size, 0)[t],
            ) && spec_self_atari(
                board.grid@,
                board.size,
                board.next,
                vacant_from(board.grid@, board.size, 0)[t].spec_index(board.size),
            )
    }

    /// Choose the next playout move: a uniformly random legal, playable
    /// vacant point (found by a bounded random scan), a pass when nothing
    /// is playable or the seki fallback fired.  The returned move is always
    /// legal for the board, and a returned play always passes the policy
    /// filter.
    pub fn select_move(&self, board: &Board, rng: &mut Rand) -> (m: Move)
        requires
            board.well_formed(),
            self.well_formed(),
            !board.spec_over(),
        ensures
            board.spec_legal(m),
            m.spec_color() == board.next,
            m is Play || m is Pass,
            m is Play ==> self.spec_playable(*board, m),
            m is Pass ==> (self.spec_no_playable_point(*board) || self.spec_seki_fallback(*board)),
    {
        if self.check_for_atari() {
            match self.atari_rescue(board, rng) {
                Option::Some(m) => {
                    return m;
                },
                Option::None => {},
            }
        }
        let color = board.next_player();
        let vacant = board.vacant();
        proof {
            crate::board::lemma_vacant_inside(board.grid@, board.size, 0);
        }
        let mut first: usize = 0;
        let mut have = false;
        if self.patterns.len() > 0 {
            // Bias: prefer the first legal, playable point where a carried
            // pattern matches; legality is never affected.
            let mut t: usize = 0;
            while t < vacant.len() && !have
                invariant
                    board.well_formed(),
                    self.well_formed(),
                    color == board.next,
                    t <= vacant@.len(),
                    vacant@ == vacant_from(board.grid@, board.size, 0),
                    forall|q: int|
                        0 <= q < vacant@.len() ==> (#[trigger] vacant@[q]).spec_is_inside(
                            board.size,
                        ),
                    have ==> (first < vacant@.len() && self.spec_point_ok(
                        *board,
                        vacant@[first as int],
                    )),
                    !have ==> first == 0,
                decreases vacant@.len() - t + if have {
                    0int
                } else {
                    1int
                },
            {
                let c = vacant[t];
                let m = Move::Play(color, c.col, c.row);
                if board.is_legal(m) && self.is_playable(board, &m) && self.any_pattern_matches(
                    board,
                    &c,
                ) {
                    have = true;
                    first = t;
                } else {
                    t += 1;
                }
            }
        }
        while first < vacant.len() && !have
            invariant
                board.well_formed(),
                color == board.next,
                first <= vacant@.len(),
                vacant@ == vacant_from(board.grid@, board.size, 0),
                have ==> (first < vacant@.len() && self.spec_point_ok(
                    *board,
                    vacant@[first as int],
                )),
                !have ==> forall|t: int|
                    0 <= t < first ==> !self.spec_point_ok(*board, #[trigger] vacant@[t]),
            decreases vacant@.len() - first + if have {
                0int
            } else {
                1int
            },
        {
            let c = vacant[first];
            let m = Move::Play(color, c.col, c.row);
            if board.is_legal(m) && self.is_playable(board, &m) {
                have = true;
            } else {
                first += 1;
            }
        }
        if !have {
            return Move::Pass(color);
        }
        proof {
            lemma_points_bound(board.size);
            crate::board::lemma_vacant_from_len(board.grid@, board.size, 0);
        }
        let fallback = vacant[first];
        let fallback_move = Move::Play(color, fallback.col, fallback.row);
        let span = vacant.len() - first;
        let mut include_pass: usize = 0;
        let mut attempts: usize = 0;
        let limit = vacant.len() + 4;
        while attempts < limit
            invariant
                board.well_formed(),
                color == board.next,
                !board.spec_over(),
                first < vacant@.len(),
                vacant@.len() <= board_points(board.size),
                board_points(board.size) <= 255 * 255,
                span == vacant@.len() - first,
                include_pass <= 1,
                vacant@ == vacant_from(board.grid@, board.size, 0),
                self.spec_point_ok(*board, vacant@[first as int]),
                fallback_move == Move::Play(
                    color,
                    vacant@[first as int].col,
                    vacant@[first as int].row,
                ),
                include_pass == 1 ==> self.spec_seki_fallback(*board),
            decreases limit - attempts,
        {
            let r = first + rng.below(span + include_pass);
            if r >= vacant.len() {
                return Move::Pass(color);
            }
            let c = vacant[r];
            let m = Move::Play(color, c.col, c.row);
            if board.is_legal(m) && self.is_playable(board, &m) {
                if include_pass == 0 && self.kind_needs_pass_fallback(board, c, color) {
                    proof {
                        assert(0 <= r < vacant@.len() && self.spec_point_ok(*board, vacant@[r as int])
                            && spec_self_atari(
                            board.grid@,
                            board.size,
                            board.next,
                            vacant@[r as int].spec_index(board.size),
                        ));
                    }
                    include_pass = 1;
                } else {
                    return m;
                }
            }
            attempts += 1;
        }
        fallback_move
    }

    /// Whether hitting this candidate first should open the door to a pass:
    /// the self-atari-avoiding policy sometimes prefers passing to a forced
    /// self-atari in seki-like positions.
    fn kind_needs_pass_fallback(&self, board: &Board, c: Coord, color: Color) -> (r: bool)
        requires
            board.well_formed(),
            c.spec_is_inside(board.size),
        ensures
            r == (self.kind == PlayoutKind::NoSelfAtari && spec_self_atari(
                board.grid@,
                board.size,
                color,
                c.spec_index(board.size),
            )),
    {
        match self.kind {
            PlayoutKind::NoEyes => false,
            PlayoutKind::NoSelfAtari => {
                let idx = c.to_index(board.size);
                is_self_atari(board, color, idx)
            },
        }
    }

    /// Run one playout: play the forced initial move if one is given, then
    /// select and play moves until the game ends or the move cap is hit,
    /// and report the moves played and the board's winner.  On a game that
    /// is already over (and with no initial move) nothing is played: the
    /// result is empty and carries the precomputed winner.
    pub fn run(&self, board: &mut Board, initial_move: Option<&Move>, rng: &mut Rand) -> (r:
        PlayoutResult)
        requires
            old(board).well_formed(),
            self.well_formed(),
            match initial_move {
                Option::Some(m) => old(board).spec_legal(*m),
                Option::None => true,
            },
        ensures
            final(board).well_formed(),
            replay_rel(*old(board), *final(board), r.spec_moves()),
            match initial_move {
                Option::Some(m) => r.spec_moves().len() >= 1 && r.spec_moves()[0] == *m,
                Option::None => true,
            },
            r.spec_winner() == final(board).spec_winner(),
            r.spec_moves().len() <= 3 * board_points(old(board).size),
            final(board).spec_over() || r.spec_moves().len() == 3 * board_points(old(board).size),
            old(board).spec_over() && initial_move is None ==> (*final(board) == *old(board)
                && r.spec_moves().len() == 0 && r.spec_winner() == old(board).spec_winner()),
    {
        proof {
            lemma_points_bound(old(board).size);
        }
        let mut played: Vec<Move> = Vec::new();
        match initial_move {
            Option::Some(m) => {
                let ghost before = *board;
                board.play_legal_move(*m);
                played.push(*m);
                proof {
                    assert(boards_alike(*board, *board)) by {
                        assert(crate::board::history_views(board.history@)
                            =~= crate::board::history_views(board.history@));
                    }
                    assert(replay_rel(*board, *board, Seq::<Move>::empty()));
                    assert(played@.drop_first() =~= Seq::<Move>::empty());
                    assert(replay_rel(before, *board, played@));
                }
            },
            Option::None => {
                proof {
                    assert(boards_alike(*board, *board)) by {
                        assert(crate::board::history_views(board.history@)
                            =~= crate::board::history_views(board.history@));
                    }
                    assert(replay_rel(*old(board), *board, played@));
                }
            },
        }
        let cap = self.max_moves(board.size());
        while played.len() < cap && !board.is_game_over()
            invariant
                board.well_formed(),
                self.well_formed(),
                played@.len() <= cap,
                cap == 3 * board_points(board.size),
                board.size == old(board).size,
                replay_rel(*old(board), *board, played@),
                match initial_move {
                    Option::Some(m) => played@.len() >= 1 && played@[0] == *m,
                    Option::None => true,
                },
                old(board).spec_over() && initial_move is None ==> (*board == *old(board)
                    && played@.len() == 0),
            decreases cap - played@.len(),
        {
            let m = self.select_move(board, rng);
            let ghost before = *board;
            board.play_legal_move(m);
            proof {
                lemma_replay_snoc(*old(board), before, *board, played@, m);
            }
            played.push(m);
        }
        let winner = board.winner();
        PlayoutResult::new(played, winner)
    }
}

} // verus!
