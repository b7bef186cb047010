//! The game-state adapter: the contract the search engine consumes.
//!
//! The engine never looks inside a position. Everything it relies on is
//! stated here: how many legal moves a position has, which positions a move
//! leads to, whether the game is over, whose turn it is, each side's score,
//! and the board-cell graph that the territory heuristic walks.

use vstd::prelude::*;

verus! {

/// One of the two players.
#[derive(Clone, Copy, PartialEq, Eq, Structural, Debug)]
pub enum Side {
    One,
    Two,
}

impl Side {
    /// The opposing player.
    pub fn other(self) -> (r: Side)
        ensures
            r == self.spec_other(),
    {
        match self {
            Side::One => Side::Two,
            Side::Two => Side::One,
        }
    }

    pub open spec fn spec_other(self) -> Side {
        match self {
            Side::One => Side::Two,
            Side::Two => Side::One,
        }
    }
}

/// Upper bound on the number of board cells a position may report.
/// It keeps every distance and fish total comfortably inside `u64`.
pub const CELL_LIMIT: usize = 1048576;

/// An immutable game position, as the search engine sees it.
///
/// Legal moves are addressed by their index in the adapter's enumeration
/// order, `0 .. move_total()`; the engine reports its chosen move as such an
/// index. `is_succ(i, r)` says that `r` is the position reached by playing
/// move `i`. The board-cell graph (`fish_on`, `is_source`, `edge`) feeds the
/// territory heuristic and plays no part in move selection itself.
pub trait GamePosition: Sized {
    /// The implementor's well-formedness condition.
    spec fn inv(&self) -> bool;

    /// How many legal moves the side to move has.
    spec fn move_total(&self) -> nat;

    /// `r` is the position reached from `self` by the move with index `i`.
    spec fn is_succ(&self, i: int, r: Self) -> bool;

    /// The game is over at this position.
    spec fn terminal(&self) -> bool;

    /// The side whose turn it is.
    spec fn to_move(&self) -> Side;

    /// The given side's score.
    spec fn points(&self, side: Side) -> nat;

    /// `self` and `o` describe the same position (used by tree reuse).
    spec fn same_pos(&self, o: &Self) -> bool;

    /// How many board cells the position has.
    spec fn cell_total(&self) -> nat;

    /// The score value waiting on cell `c`.
    spec fn fish_on(&self, c: int) -> nat;

    /// Cell `c` is occupied by `side` (a flood-fill origin).
    spec fn is_source(&self, side: Side, c: int) -> bool;

    /// One move-step leads from cell `a` to cell `b`.
    spec fn edge(&self, a: int, b: int) -> bool;

    fn move_count(&self) -> (n: usize)
        requires
            self.inv(),
        ensures
            n == self.move_total(),
    ;

    fn apply_move(&self, i: usize) -> (r: Self)
        requires
            self.inv(),
            i < self.move_total(),
        ensures
            r.inv(),
            self.is_succ(i as int, r),
    ;

    fn is_terminal(&self) -> (b: bool)
        requires
            self.inv(),
        ensures
            b == self.terminal(),
    ;

    fn side_to_move(&self) -> (s: Side)
        requires
            self.inv(),
        ensures
            s == self.to_move(),
    ;

    fn score(&self, side: Side) -> (p: u32)
        requires
            self.inv(),
        ensures
            p == self.points(side),
    ;

    fn equals(&self, o: &Self) -> (b: bool)
        requires
            self.inv(),
            o.inv(),
        ensures
            b == self.same_pos(o),
    ;

    fn cell_count(&self) -> (n: usize)
        requires
            self.inv(),
        ensures
            n == self.cell_total(),
    ;

    fn fish_at(&self, c: usize) -> (f: u32)
        requires
            self.inv(),
            c < self.cell_total(),
        ensures
            f == self.fish_on(c as int),
    ;

    /// The cells occupied by `side`, each exactly once.
    fn occupied_cells(&self, side: Side) -> (v: Vec<usize>)
        requires
            self.inv(),
        ensures
            forall|j: int|
                0 <= j < v@.len() ==> self.is_source(side, #[trigger] v@[j] as int) && v@[j]
                    < self.cell_total(),
            forall|c: int|
                0 <= c < self.cell_total() && self.is_source(side, c) ==> exists|j: int|
                    0 <= j < v@.len() && #[trigger] v@[j] == c,
    ;

    /// The cells one move-step away from cell `c`.
    fn destinations(&self, c: usize) -> (v: Vec<usize>)
        requires
            self.inv(),
            c < self.cell_total(),
        ensures
            forall|j: int|
                0 <= j < v@.len() ==> self.edge(c as int, #[trigger] v@[j] as int) && v@[j]
                    < self.cell_total(),
            forall|b: int|
                0 <= b < self.cell_total() && self.edge(c as int, b) ==> exists|j: int|
                    0 <= j < v@.len() && #[trigger] v@[j] == b,
    ;

    /// A position that is not over has at least one legal move: a position
    /// with none must be reported as terminal.
    proof fn law_moves(&self)
        requires
            self.inv(),
        ensures
            !self.terminal() ==> self.move_total() > 0,
    ;

    /// A position describes the same position as itself.
    proof fn law_refl(&self)
        requires
            self.inv(),
        ensures
            self.same_pos(self),
    ;

    /// Positions that compare equal agree on what the engine asks of them
    /// before it searches: whether the game is over, and how many moves exist.
    proof fn law_same(&self, o: &Self)
        requires
            self.inv(),
            o.inv(),
            self.same_pos(o),
        ensures
            self.move_total() == o.move_total(),
            self.terminal() == o.terminal(),
    ;

    /// The board stays within the cell budget, every fish count fits a `u32`,
    /// and the cell graph never points outside the board.
    proof fn law_board(&self)
        requires
            self.inv(),
        ensures
            self.cell_total() <= CELL_LIMIT,
            forall|c: int| 0 <= c < self.cell_total() ==> #[trigger] self.fish_on(c) <= u32::MAX,
            forall|a: int, b: int|
                #[trigger] self.edge(a, b) ==> 0 <= a < self.cell_total() && 0 <= b
                    < self.cell_total(),
    ;
}

} // verus!
