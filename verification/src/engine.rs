//! The live match: a 3x3 board, two markers, and turn state. Pure
//! in-memory logic; the interactive loop around it only relays moves
//! and displays the board.
//!
//! A cell holds a player's marker character, or the space character
//! while it is still free. A cell is written at most once: a move onto
//! a taken cell, an out-of-range move, or any move after the match has
//! ended is refused and leaves the state untouched.

use vstd::prelude::*;

verus! {

/// A participant, as the engine knows one: just a display name.
pub struct Player {
    pub name: String,
}

/// The one recoverable condition a move can raise: the move was out of
/// range, onto a taken cell, or after the match had ended. The match
/// goes on; the caller may try another move.
#[derive(Debug, PartialEq, Eq)]
pub enum GameError {
    IllegalMove,
}

/// What a scan of the board says about the match.
#[derive(Debug, PartialEq, Eq)]
pub enum Outcome {
    /// No completed line and at least one free cell.
    InProgress,
    /// The carried marker owns a completed line.
    Winner(char),
    /// All nine cells taken, no completed line.
    Drawn,
}

/// The mathematical image of a [`Game`]: the nine cells in row-major
/// order, the active marker, the two players' markers and names.
pub ghost struct GameView {
    pub board: Seq<char>,
    pub current: char,
    pub p1_marker: char,
    pub p2_marker: char,
    pub p1_name: Seq<char>,
    pub p2_name: Seq<char>,
}

/// The free-cell marker.
pub open spec fn empty_cell() -> char {
    ' '
}

/// Row-major position of a cell.
pub open spec fn cell_at(row: int, col: int) -> int {
    row * 3 + col
}

/// `m` owns three in a row: some row, column or diagonal holds `m` in
/// all three cells.
pub open spec fn line_won(b: Seq<char>, m: char) -> bool
    recommends
        b.len() == 9,
{
    m != empty_cell() && {
        ||| (b[0] == m && b[1] == m && b[2] == m)
        ||| (b[3] == m && b[4] == m && b[5] == m)
        ||| (b[6] == m && b[7] == m && b[8] == m)
        ||| (b[0] == m && b[3] == m && b[6] == m)
        ||| (b[1] == m && b[4] == m && b[7] == m)
        ||| (b[2] == m && b[5] == m && b[8] == m)
        ||| (b[0] == m && b[4] == m && b[8] == m)
        ||| (b[2] == m && b[4] == m && b[6] == m)
    }
}

pub open spec fn board_full(b: Seq<char>) -> bool
    recommends
        b.len() == 9,
{
    forall|i: int| 0 <= i < 9 ==> b[i] != empty_cell()
}

pub open spec fn all_cells_empty(b: Seq<char>) -> bool
    recommends
        b.len() == 9,
{
    forall|i: int| 0 <= i < 9 ==> b[i] == empty_cell()
}

impl GameView {
    /// Structural soundness: nine cells, two distinct real markers,
    /// the active marker one of the two, and every cell either free or
    /// owned by one of the two.
    pub open spec fn wf(self) -> bool {
        &&& self.board.len() == 9
        &&& self.p1_marker != empty_cell()
        &&& self.p2_marker != empty_cell()
        &&& self.p1_marker != self.p2_marker
        &&& (self.current == self.p1_marker || self.current == self.p2_marker)
        &&& forall|i: int|
            0 <= i < 9 ==> (#[trigger] self.board[i] == empty_cell() || self.board[i]
                == self.p1_marker || self.board[i] == self.p2_marker)
    }

    /// One of the two players owns a completed line.
    pub open spec fn winner_exists(self) -> bool {
        line_won(self.board, self.p1_marker) || line_won(self.board, self.p2_marker)
    }

    /// The match is over: won or drawn.
    pub open spec fn terminal(self) -> bool {
        self.winner_exists() || board_full(self.board)
    }

    /// The marker that is not active.
    pub open spec fn other_marker(self) -> char {
        if self.current == self.p1_marker {
            self.p2_marker
        } else {
            self.p1_marker
        }
    }
}

/// A move is accepted exactly when it is in range, the cell is free,
/// and the match is still running.
pub open spec fn move_legal(v: GameView, row: int, col: int) -> bool {
    &&& 0 <= row < 3
    &&& 0 <= col < 3
    &&& v.board[cell_at(row, col)] == empty_cell()
    &&& !v.terminal()
}

/// The state after a legal move: the cell takes the active marker;
/// the turn does not change here.
pub open spec fn spec_apply(v: GameView, row: int, col: int) -> GameView {
    GameView {
        board: v.board.update(cell_at(row, col), v.current),
        current: v.current,
        p1_marker: v.p1_marker,
        p2_marker: v.p2_marker,
        p1_name: v.p1_name,
        p2_name: v.p2_name,
    }
}

/// The state after the turn is handed to the other player.
pub open spec fn spec_switch(v: GameView) -> GameView {
    GameView {
        board: v.board,
        current: v.other_marker(),
        p1_marker: v.p1_marker,
        p2_marker: v.p2_marker,
        p1_name: v.p1_name,
        p2_name: v.p2_name,
    }
}

/// One round as the driving loop plays it: apply the move and, if it
/// was accepted, hand the turn over; a refused move changes nothing.
pub open spec fn spec_round(v: GameView, row: int, col: int) -> GameView {
    if move_legal(v, row, col) {
        spec_switch(spec_apply(v, row, col))
    } else {
        v
    }
}

/// A whole sequence of attempted moves, played round by round.
pub open spec fn spec_play(v: GameView, moves: Seq<(int, int)>) -> GameView
    decreases moves.len(),
{
    if moves.len() == 0 {
        v
    } else {
        spec_play(spec_round(v, moves.first().0, moves.first().1), moves.drop_first())
    }
}

pub open spec fn ind(b: bool) -> int {
    if b {
        1
    } else {
        0
    }
}

/// How many cells hold `m`.
pub open spec fn mark_count(b: Seq<char>, m: char) -> int
    recommends
        b.len() == 9,
{
    ind(b[0] == m) + ind(b[1] == m) + ind(b[2] == m) + ind(b[3] == m) + ind(b[4] == m) + ind(
        b[5] == m,
    ) + ind(b[6] == m) + ind(b[7] == m) + ind(b[8] == m)
}

/// The invariant of alternating play: the player about to move has
/// made at most as many marks as the other, and at most one fewer.
pub open spec fn turn_balanced(v: GameView) -> bool {
    &&& mark_count(v.board, v.current) <= mark_count(v.board, v.other_marker())
    &&& mark_count(v.board, v.other_marker()) <= mark_count(v.board, v.current) + 1
}

/// A board with no marks at all is balanced, so every state a fresh
/// match can reach through rounds of play is balanced too.
pub proof fn lemma_fresh_is_balanced(v: GameView)
    requires
        v.wf(),
        all_cells_empty(v.board),
    ensures
        turn_balanced(v),
{
}

/// One round keeps the state sound, keeps both markers, and never
/// rewrites a taken cell.
pub proof fn lemma_round_preserves(v: GameView, row: int, col: int)
    requires
        v.wf(),
    ensures
        spec_round(v, row, col).wf(),
        spec_round(v, row, col).p1_marker == v.p1_marker,
        spec_round(v, row, col).p2_marker == v.p2_marker,
        forall|i: int|
            0 <= i < 9 && v.board[i] != empty_cell() ==> spec_round(v, row, col).board[i]
                == v.board[i],
{
}

/// Write-once: across any sequence of attempted moves — legal or not —
/// a cell that holds a marker keeps exactly that marker.
pub proof fn lemma_play_write_once(v: GameView, moves: Seq<(int, int)>, i: int)
    requires
        v.wf(),
        0 <= i < 9,
        v.board[i] != empty_cell(),
    ensures
        spec_play(v, moves).wf(),
        spec_play(v, moves).board[i] == v.board[i],
    decreases moves.len(),
{
    if moves.len() > 0 {
        let v1 = spec_round(v, moves.first().0, moves.first().1);
        lemma_round_preserves(v, moves.first().0, moves.first().1);
        lemma_play_write_once(v1, moves.drop_first(), i);
    }
}

/// Marking one cell raises the owner's count by one and no other's.
proof fn lemma_mark_count_update(b: Seq<char>, i: int, m: char, x: char)
    requires
        b.len() == 9,
        0 <= i < 9,
        b[i] != x,
    ensures
        mark_count(b.update(i, m), x) == mark_count(b, x) + ind(m == x),
{
    let b2 = b.update(i, m);
    assert(b2[i] == m);
    assert(forall|k: int| 0 <= k < 9 && k != i ==> b2[k] == b[k]);
}

/// One round keeps the alternation balance.
#[verifier::spinoff_prover]
pub proof fn lemma_round_balanced(v: GameView, row: int, col: int)
    requires
        v.wf(),
        turn_balanced(v),
    ensures
        spec_round(v, row, col).wf(),
        turn_balanced(spec_round(v, row, col)),
{
    lemma_round_preserves(v, row, col);
    if move_legal(v, row, col) {
        let i = cell_at(row, col);
        let c = v.current;
        let o = v.other_marker();
        assert(c != o);
        lemma_mark_count_update(v.board, i, c, c);
        lemma_mark_count_update(v.board, i, c, o);
        let v2 = spec_round(v, row, col);
        assert(v2.board == v.board.update(i, c) && v2.current == o);
        assert(v2.other_marker() == c);
    }
}

/// Any sequence of rounds keeps the alternation balance. A fresh
/// board is balanced (no marks at all), so every reachable state is.
pub proof fn lemma_play_balanced(v: GameView, moves: Seq<(int, int)>)
    requires
        v.wf(),
        turn_balanced(v),
    ensures
        spec_play(v, moves).wf(),
        turn_balanced(spec_play(v, moves)),
    decreases moves.len(),
{
    if moves.len() > 0 {
        let v1 = spec_round(v, moves.first().0, moves.first().1);
        lemma_round_balanced(v, moves.first().0, moves.first().1);
        lemma_play_balanced(v1, moves.drop_first());
    }
}

/// Under alternating play, a board with fewer than five marks can be
/// neither won nor full: the outcome scan must say the match is still
/// running. (Without the balance bound this is false: three of the
/// same marker and one other — four marks — already hold a line.)
pub proof fn lemma_few_marks_in_progress(v: GameView)
    requires
        v.wf(),
        turn_balanced(v),
        mark_count(v.board, v.p1_marker) + mark_count(v.board, v.p2_marker) < 5,
    ensures
        !v.winner_exists(),
        !board_full(v.board),
        !v.terminal(),
{
    if board_full(v.board) {
        assert(forall|i: int|
            0 <= i < 9 ==> ind(#[trigger] v.board[i] == v.p1_marker) + ind(v.board[i]
                == v.p2_marker) == 1);
        assert(false);
    }
}

/// One match: board, markers, players, and whose turn it is.
pub struct Game {
    board: Vec<char>,
    current_player: char,
    player1_marker: char,
    player2_marker: char,
    player1: Player,
    player2: Player,
}

impl View for Game {
    type V = GameView;

    closed spec fn view(&self) -> GameView {
        GameView {
            board: self.board@,
            current: self.current_player,
            p1_marker: self.player1_marker,
            p2_marker: self.player2_marker,
            p1_name: self.player1.name@,
            p2_name: self.player2.name@,
        }
    }
}

impl Game {
    /// A fresh match: empty board, player one's marker active.
    pub fn new(
        player1_marker: char,
        player2_marker: char,
        player1: &Player,
        player2: &Player,
    ) -> (g: Game)
        requires
            player1_marker != empty_cell(),
            player2_marker != empty_cell(),
            player1_marker != player2_marker,
        ensures
            g@.wf(),
            all_cells_empty(g@.board),
            g@.current == player1_marker,
            g@.p1_marker == player1_marker,
            g@.p2_marker == player2_marker,
            g@.p1_name == player1.name@,
            g@.p2_name == player2.name@,
    {
        let mut board: Vec<char> = Vec::new();
        let mut i: usize = 0;
        while i < 9
            invariant
                0 <= i <= 9,
                board@.len() == i,
                forall|j: int| 0 <= j < i ==> board@[j] == empty_cell(),
            decreases 9 - i,
        {
            board.push(' ');
            i = i + 1;
        }
        Game {
            board,
            current_player: player1_marker,
            player1_marker,
            player2_marker,
            player1: Player { name: player1.name.clone() },
            player2: Player { name: player2.name.clone() },
        }
    }

    /// Replaces the two players and their markers, before the first
    /// move is made. The active side is carried over by role: if
    /// player one was to move, player one still is, under the new
    /// marker.
    pub fn set_players(
        &mut self,
        player1_marker: char,
        player2_marker: char,
        player1: &Player,
        player2: &Player,
    )
        requires
            old(self)@.wf(),
            all_cells_empty(old(self)@.board),
            player1_marker != empty_cell(),
            player2_marker != empty_cell(),
            player1_marker != player2_marker,
        ensures
            final(self)@.wf(),
            final(self)@.board == old(self)@.board,
            final(self)@.p1_marker == player1_marker,
            final(self)@.p2_marker == player2_marker,
            final(self)@.p1_name == player1.name@,
            final(self)@.p2_name == player2.name@,
            final(self)@.current == (if old(self)@.current == old(self)@.p1_marker {
                player1_marker
            } else {
                player2_marker
            }),
    {
        if self.current_player == self.player1_marker {
            self.current_player = player1_marker;
        } else {
            self.current_player = player2_marker;
        }
        self.player1_marker = player1_marker;
        self.player2_marker = player2_marker;
        self.player1 = Player { name: player1.name.clone() };
        self.player2 = Player { name: player2.name.clone() };
    }

    /// One cell of the board, for callers that render or inspect it.
    pub fn cell(&self, row: usize, col: usize) -> (c: char)
        requires
            self@.wf(),
            row < 3,
            col < 3,
        ensures
            c == self@.board[cell_at(row as int, col as int)],
    {
        self.board[row * 3 + col]
    }

    /// The marker whose turn it is.
    pub fn current_marker(&self) -> (m: char)
        ensures
            m == self@.current,
    {
        self.current_player
    }

    /// The name of the player whose turn it is.
    pub fn current_player_name(&self) -> (name: &str)
        ensures
            name@ == (if self@.current == self@.p1_marker {
                self@.p1_name
            } else {
                self@.p2_name
            }),
    {
        if self.current_player == self.player1_marker {
            self.player1.name.as_str()
        } else {
            self.player2.name.as_str()
        }
    }

    /// The name of the player whose turn it is not: after a winning
    /// move and a turn switch, this is the winner.
    pub fn last_player_name(&self) -> (name: &str)
        ensures
            name@ == (if self@.current == self@.p1_marker {
                self@.p2_name
            } else {
                self@.p1_name
            }),
    {
        if self.current_player == self.player1_marker {
            self.player2.name.as_str()
        } else {
            self.player1.name.as_str()
        }
    }

    /// The name of the player who owns the given marker.
    pub fn identity_for(&self, marker: char) -> (name: &str)
        requires
            marker == self@.p1_marker || marker == self@.p2_marker,
        ensures
            name@ == (if marker == self@.p1_marker {
                self@.p1_name
            } else {
                self@.p2_name
            }),
    {
        if marker == self.player1_marker {
            self.player1.name.as_str()
        } else {
            self.player2.name.as_str()
        }
    }

    /// Applies the active marker to the given cell. Refused — with the
    /// state left exactly as it was — when the cell is out of range or
    /// taken, or the match has already ended.
    pub fn make_move(&mut self, row: usize, col: usize) -> (r: Result<(), GameError>)
        requires
            old(self)@.wf(),
        ensures
            final(self)@.wf(),
            r is Ok <==> move_legal(old(self)@, row as int, col as int),
            move_legal(old(self)@, row as int, col as int) ==> final(self)@ == spec_apply(
                old(self)@,
                row as int,
                col as int,
            ),
            !move_legal(old(self)@, row as int, col as int) ==> r == Result::<
                (),
                GameError,
            >::Err(GameError::IllegalMove) && final(self)@ == old(self)@,
            forall|i: int|
                0 <= i < 9 && old(self)@.board[i] != empty_cell() ==> final(self)@.board[i] == old(
                    self,
                )@.board[i],
    {
        if row < 3 && col < 3 {
            let over = match self.evaluate_outcome() {
                Outcome::InProgress => false,
                _ => true,
            };
            if !over && self.board[row * 3 + col] == ' ' {
                let m = self.current_player;
                self.board.set(row * 3 + col, m);
                return Ok(());
            }
        }
        Err(GameError::IllegalMove)
    }

    /// Hands the turn to the other player.
    pub fn switch_player(&mut self)
        requires
            old(self)@.wf(),
        ensures
            final(self)@.wf(),
            final(self)@ == spec_switch(old(self)@),
    {
        if self.current_player == self.player1_marker {
            self.current_player = self.player2_marker;
        } else {
            self.current_player = self.player1_marker;
        }
    }

    /// The marker that owns a completed line, if any line is complete.
    pub fn check_winner(&self) -> (w: Option<char>)
        requires
            self@.wf(),
        ensures
            w is Some <==> self@.winner_exists(),
            w matches Some(m) ==> line_won(self@.board, m) && (m == self@.p1_marker || m
                == self@.p2_marker),
    {
        let b = &self.board;
        if b[0] != ' ' && b[0] == b[1] && b[1] == b[2] {
            return Some(b[0]);
        }
        if b[3] != ' ' && b[3] == b[4] && b[4] == b[5] {
            return Some(b[3]);
        }
        if b[6] != ' ' && b[6] == b[7] && b[7] == b[8] {
            return Some(b[6]);
        }
        if b[0] != ' ' && b[0] == b[3] && b[3] == b[6] {
            return Some(b[0]);
        }
        if b[1] != ' ' && b[1] == b[4] && b[4] == b[7] {
            return Some(b[1]);
        }
        if b[2] != ' ' && b[2] == b[5] && b[5] == b[8] {
            return Some(b[2]);
        }
        if b[0] != ' ' && b[0] == b[4] && b[4] == b[8] {
            return Some(b[0]);
        }
        if b[2] != ' ' && b[2] == b[4] && b[4] == b[6] {
            return Some(b[2]);
        }
        None
    }

    /// Whether every cell is taken.
    pub fn board_full_check(&self) -> (full: bool)
        requires
            self@.wf(),
        ensures
            full == board_full(self@.board),
    {
        let mut i: usize = 0;
        while i < 9
            invariant
                0 <= i <= 9,
                self@.wf(),
                forall|j: int| 0 <= j < i ==> self@.board[j] != empty_cell(),
            decreases 9 - i,
        {
            if self.board[i] == ' ' {
                return false;
            }
            i = i + 1;
        }
        true
    }

    /// Scans rows, columns and diagonals. Any completed line names its
    /// owner the winner; a full board with no line is a draw; anything
    /// else means the match is still running.
    pub fn evaluate_outcome(&self) -> (o: Outcome)
        requires
            self@.wf(),
        ensures
            o is Winner <==> self@.winner_exists(),
            o matches Outcome::Winner(m) ==> line_won(self@.board, m) && (m == self@.p1_marker
                || m == self@.p2_marker),
            o is Drawn <==> !self@.winner_exists() && board_full(self@.board),
            o is InProgress <==> !self@.terminal(),
    {
        match self.check_winner() {
            Some(m) => Outcome::Winner(m),
            None => {
                if self.board_full_check() {
                    Outcome::Drawn
                } else {
                    Outcome::InProgress
                }
            },
        }
    }
}

} // verus!
