//! The game of tic-tac-toe.

use vstd::prelude::*;
use vstd::string::*;

verus! {

/// The two players.
#[derive(PartialEq, Eq, Clone, Copy, Debug, Structural)]
pub enum Player {
    X,
    O,
}

/// The board: `field[x][y]` tells who holds the cell in column `x` and row
/// `y`.
#[derive(PartialEq, Eq, Clone, Copy, Debug)]
pub struct GameState {
    pub field: [[Option<Player>; 3]; 3],
}

/// The other player.
pub open spec fn opponent(player: Player) -> Player {
    match player {
        Player::X => Player::O,
        Player::O => Player::X,
    }
}

/// The other player.
pub fn other(player: Player) -> (r: Player)
    ensures
        r == opponent(player),
{
    match player {
        Player::X => Player::O,
        Player::O => Player::X,
    }
}

/// The cell with the number `j` of the winning line with the number `k`:
/// the lines zero to two hold `x` fixed, the lines three to five hold `y`
/// fixed, the lines six and seven are the diagonals.
pub open spec fn line_cell(k: int, j: int) -> (int, int) {
    if k < 3 {
        (k, j)
    } else if k < 6 {
        (j, k - 3)
    } else if k == 6 {
        (j, j)
    } else {
        (2 - j, j)
    }
}

/// The cell with the number `j` of the winning line with the number `k`.
pub fn how_to_win(k: usize, j: usize) -> (cell: (usize, usize))
    requires
        k < 8,
        j < 3,
    ensures
        cell.0 == line_cell(k as int, j as int).0,
        cell.1 == line_cell(k as int, j as int).1,
        cell.0 < 3,
        cell.1 < 3,
{
    if k < 3 {
        (k, j)
    } else if k < 6 {
        (j, k - 3)
    } else if k == 6 {
        (j, j)
    } else {
        (2 - j, j)
    }
}

impl GameState {
    /// Who holds the cell in column `x` and row `y`.
    pub open spec fn cell(&self, x: int, y: int) -> Option<Player> {
        self.field@[x]@[y]
    }

    /// Some cell is free.
    pub open spec fn has_free_cell(&self) -> bool {
        exists|x: int, y: int| 0 <= x < 3 && 0 <= y < 3 && #[trigger] self.cell(x, y) is None
    }

    /// The number of cells that are held.
    #[verifier::opaque]
    pub open spec fn held_count(&self) -> int {
        held(self.cell(0, 0)) + held(self.cell(0, 1)) + held(self.cell(0, 2)) + held(
            self.cell(1, 0),
        ) + held(self.cell(1, 1)) + held(self.cell(1, 2)) + held(self.cell(2, 0)) + held(
            self.cell(2, 1),
        ) + held(self.cell(2, 2))
    }

    /// The player holds the three cells of the line `k`.
    pub open spec fn holds_line(&self, player: Player, k: int) -> bool {
        forall|j: int|
            0 <= j < 3 ==> self.cell(#[trigger] line_cell(k, j).0, line_cell(k, j).1) == Some(
                player,
            )
    }

    /// The player holds a winning line.
    #[verifier::opaque]
    pub open spec fn wins(&self, player: Player) -> bool {
        exists|k: int| 0 <= k < 8 && #[trigger] self.holds_line(player, k)
    }

    /// `after` is this board with the free cell `(x, y)` taken by the
    /// player.
    pub open spec fn leads_to(&self, after: GameState, player: Player, x: int, y: int) -> bool {
        &&& 0 <= x < 3
        &&& 0 <= y < 3
        &&& self.cell(x, y) is None
        &&& after.cell(x, y) == Some(player)
        &&& forall|i: int, j: int|
            0 <= i < 3 && 0 <= j < 3 && !(i == x && j == y) ==> #[trigger] after.cell(i, j)
                == self.cell(i, j)
    }

    /// Who holds the cell in column `x` and row `y`.
    pub fn get(&self, x: usize, y: usize) -> (r: Option<Player>)
        requires
            x < 3,
            y < 3,
        ensures
            r == self.cell(x as int, y as int),
    {
        self.field[x][y]
    }

    /// The board after the player has taken the free cell `position`.
    pub fn move_copy(&self, player: Player, position: (usize, usize)) -> (after: GameState)
        requires
            position.0 < 3,
            position.1 < 3,
            self.cell(position.0 as int, position.1 as int) is None,
        ensures
            self.leads_to(after, player, position.0 as int, position.1 as int),
    {
        let mut new_state = *self;
        new_state.field[position.0][position.1] = Some(player);
        new_state
    }

    /// Whether the player holds a winning line.
    pub fn has_won(&self, player: Player) -> (won: bool)
        ensures
            won == self.wins(player),
    {
        reveal(GameState::wins);
        let mut k: usize = 0;
        while k < 8
            invariant
                k <= 8,
                forall|m: int| 0 <= m < k ==> !#[trigger] self.holds_line(player, m),
            decreases 8 - k,
        {
            let a = how_to_win(k, 0);
            let b = how_to_win(k, 1);
            let c = how_to_win(k, 2);
            if is_held_by(self.get(a.0, a.1), player) && is_held_by(self.get(b.0, b.1), player)
                && is_held_by(self.get(c.0, c.1), player) {
                proof {
                    reveal(GameState::wins);
                    assert(self.holds_line(player, k as int));
                }
                return true;
            }
            proof {
                assert(line_cell(k as int, 0).0 == a.0);
                assert(line_cell(k as int, 1).0 == b.0);
                assert(line_cell(k as int, 2).0 == c.0);
            }
            k += 1;
        }
        false
    }
}

/// One for a held cell and zero for a free one.
pub open spec fn held(cell: Option<Player>) -> int {
    if cell is Some {
        1
    } else {
        0
    }
}

/// Whether the player holds the cell.
pub fn is_held_by(cell: Option<Player>, player: Player) -> (r: bool)
    ensures
        r == (cell == Some(player)),
{
    match cell {
        Some(Player::X) => match player {
            Player::X => true,
            Player::O => false,
        },
        Some(Player::O) => match player {
            Player::X => false,
            Player::O => true,
        },
        None => false,
    }
}

/// A board on which fewer than nine cells are held has a free cell.
pub proof fn lemma_room_left(state: GameState)
    requires
        state.held_count() < 9,
    ensures
        state.has_free_cell(),
{
    reveal(GameState::held_count);
    if state.cell(0, 0) is None {
    } else if state.cell(0, 1) is None {
    } else if state.cell(0, 2) is None {
    } else if state.cell(1, 0) is None {
    } else if state.cell(1, 1) is None {
    } else if state.cell(1, 2) is None {
    } else if state.cell(2, 0) is None {
    } else if state.cell(2, 1) is None {
    } else {
        assert(state.cell(2, 2) is None);
    }
}

/// Taking a free cell raises the number of held cells by one.
pub proof fn lemma_move_counts(before: GameState, after: GameState, player: Player, x: int, y: int)
    requires
        before.leads_to(after, player, x, y),
    ensures
        after.held_count() == before.held_count() + 1,
{
    reveal(GameState::held_count);
    assert(after.cell(0, 0) == if x == 0 && y == 0 { Some(player) } else { before.cell(0, 0) });
    assert(after.cell(0, 1) == if x == 0 && y == 1 { Some(player) } else { before.cell(0, 1) });
    assert(after.cell(0, 2) == if x == 0 && y == 2 { Some(player) } else { before.cell(0, 2) });
    assert(after.cell(1, 0) == if x == 1 && y == 0 { Some(player) } else { before.cell(1, 0) });
    assert(after.cell(1, 1) == if x == 1 && y == 1 { Some(player) } else { before.cell(1, 1) });
    assert(after.cell(1, 2) == if x == 1 && y == 2 { Some(player) } else { before.cell(1, 2) });
    assert(after.cell(2, 0) == if x == 2 && y == 0 { Some(player) } else { before.cell(2, 0) });
    assert(after.cell(2, 1) == if x == 2 && y == 1 { Some(player) } else { before.cell(2, 1) });
    assert(after.cell(2, 2) == if x == 2 && y == 2 { Some(player) } else { before.cell(2, 2) });
}

/// A way to choose moves.
pub trait Strategy {
    /// The strategy can be asked for a move.
    spec fn ready(&self) -> bool;

    /// Asked for a move of the player `me` on the board `state`, the
    /// strategy may answer `position` and be the strategy `after` from then
    /// on.
    spec fn chooses(
        &self,
        me: Player,
        state: &GameState,
        position: (usize, usize),
        after: &Self,
    ) -> bool;

    /// A free cell of the board, which has one, for the player `me`: one
    /// that the strategy chooses.
    fn get_move(&mut self, me: Player, state: &GameState) -> (position: (usize, usize))
        requires
            old(self).ready(),
            state.has_free_cell(),
        ensures
            final(self).ready(),
            position.0 < 3,
            position.1 < 3,
            state.cell(position.0 as int, position.1 as int) is None,
            old(self).chooses(me, state, position, final(self)),
    ;
}

/// The empty board.
pub fn initial_state() -> (state: GameState)
    ensures
        forall|x: int, y: int| 0 <= x < 3 && 0 <= y < 3 ==> #[trigger] state.cell(x, y) is None,
        state.held_count() == 0,
{
    reveal(GameState::held_count);
    GameState { field: [[None, None, None], [None, None, None], [None, None, None]] }
}

/// The player whose turn it is after `turn` moves: X begins.
pub open spec fn player_at(turn: int) -> Player {
    if turn % 2 == 0 {
        Player::X
    } else {
        Player::O
    }
}

/// `after` comes from `before` by a move of the player.
pub open spec fn follows(before: GameState, after: GameState, player: Player) -> bool {
    exists|x: int, y: int| #[trigger] before.leads_to(after, player, x, y)
}

/// `states` holds the boards of a game from the empty board on: each comes
/// from the one before by a move of the player whose turn it is, and no
/// move follows a board on which the player who moved last has won.
pub open spec fn is_game(states: Seq<GameState>) -> bool {
    &&& states.len() >= 1
    &&& states[0].held_count() == 0
    &&& forall|k: int|
        0 <= k < states.len() - 1 ==> follows(#[trigger] states[k], states[k + 1], player_at(k))
    &&& forall|k: int| 0 < k < states.len() - 1 ==> !(#[trigger] states[k]).wins(player_at(k - 1))
}

/// A game goes on by a move of the player whose turn it is, unless the
/// player who moved last has won.
pub proof fn lemma_game_goes_on(states: Seq<GameState>, next: GameState)
    requires
        is_game(states),
        follows(states.last(), next, player_at(states.len() - 1)),
        states.len() > 1 ==> !states.last().wins(player_at(states.len() - 2)),
    ensures
        is_game(states.push(next)),
{
    let longer = states.push(next);
    assert forall|k: int| 0 <= k < longer.len() - 1 implies follows(
        #[trigger] longer[k],
        longer[k + 1],
        player_at(k),
    ) by {
        if k < states.len() - 1 {
            assert(longer[k] == states[k]);
            assert(longer[k + 1] == states[k + 1]);
            assert(follows(states[k], states[k + 1], player_at(k)));
        } else {
            assert(longer[k] == states.last());
            assert(longer[k + 1] == next);
        }
    }
    assert forall|k: int| 0 < k < longer.len() - 1 implies !(#[trigger] longer[k]).wins(
        player_at(k - 1),
    ) by {
        assert(longer[k] == states[k]);
        if k < states.len() - 1 {
            assert(!states[k].wins(player_at(k - 1)));
        }
    }
}

/// The move `k` of a game was the answer `position` of the strategy of the
/// player whose turn it was, of X with an even `k`: the board after it
/// comes from the board before it by the player's taking that cell, and the
/// strategy of the other player is what it was. `xs` and `os` hold the two
/// strategies as they were before each move and after the last.
pub open spec fn turn_by<A: Strategy, B: Strategy>(
    states: Seq<GameState>,
    xs: Seq<A>,
    os: Seq<B>,
    k: int,
    position: (usize, usize),
) -> bool {
    &&& states[k].leads_to(states[k + 1], player_at(k), position.0 as int, position.1 as int)
    &&& if k % 2 == 0 {
        xs[k].chooses(Player::X, &states[k], position, &xs[k + 1]) && os[k + 1] == os[k]
    } else {
        os[k].chooses(Player::O, &states[k], position, &os[k + 1]) && xs[k + 1] == xs[k]
    }
}

/// The move `k` of a game was the answer of the strategy of the player
/// whose turn it was: see [`turn_by`].
pub open spec fn is_answer<A: Strategy, B: Strategy>(
    states: Seq<GameState>,
    xs: Seq<A>,
    os: Seq<B>,
    k: int,
) -> bool {
    exists|position: (usize, usize)| #[trigger] turn_by(states, xs, os, k, position)
}

/// Every move of the game with the boards `states` was the answer of the
/// strategy of the player whose turn it was.
#[verifier::opaque]
pub open spec fn is_played<A: Strategy, B: Strategy>(
    states: Seq<GameState>,
    xs: Seq<A>,
    os: Seq<B>,
) -> bool {
    &&& xs.len() == states.len()
    &&& os.len() == states.len()
    &&& forall|k: int| 0 <= k < states.len() - 1 ==> #[trigger] is_answer(states, xs, os, k)
}

/// The strategies `strat_x` and `strat_o` played the game with the boards
/// `states`, each move the answer of the one whose turn it was, and were
/// `after_x` and `after_o` at its end.
pub open spec fn is_played_by<A: Strategy, B: Strategy>(
    strat_x: A,
    strat_o: B,
    states: Seq<GameState>,
    after_x: A,
    after_o: B,
) -> bool {
    exists|xs: Seq<A>, os: Seq<B>|
        (#[trigger] is_played(states, xs, os)) && states.len() >= 1 && xs[0] == strat_x && os[0]
            == strat_o && xs.last() == after_x && os.last() == after_o
}

/// A played game goes on by an answer of the strategy whose turn it is.
pub proof fn lemma_play_goes_on<A: Strategy, B: Strategy>(
    states: Seq<GameState>,
    xs: Seq<A>,
    os: Seq<B>,
    next: GameState,
    next_x: A,
    next_o: B,
    position: (usize, usize),
)
    requires
        states.len() >= 1,
        is_played(states, xs, os),
        turn_by(
            states.push(next),
            xs.push(next_x),
            os.push(next_o),
            states.len() - 1,
            position,
        ),
    ensures
        is_played(states.push(next), xs.push(next_x), os.push(next_o)),
{
    reveal(is_played);
    let longer = states.push(next);
    let longer_x = xs.push(next_x);
    let longer_o = os.push(next_o);
    assert forall|k: int| 0 <= k < longer.len() - 1 implies #[trigger] is_answer(
        longer,
        longer_x,
        longer_o,
        k,
    ) by {
        if k < states.len() - 1 {
            assert(is_answer(states, xs, os, k));
            let p = choose|p: (usize, usize)| #[trigger] turn_by(states, xs, os, k, p);
            assert(longer[k] == states[k] && longer[k + 1] == states[k + 1]);
            assert(longer_x[k] == xs[k] && longer_x[k + 1] == xs[k + 1]);
            assert(longer_o[k] == os[k] && longer_o[k + 1] == os[k + 1]);
            assert(turn_by(longer, longer_x, longer_o, k, p));
        } else {
            assert(turn_by(longer, longer_x, longer_o, k, position));
        }
    }
}

/// Plays a game between two strategies and returns the winner, if any, and
/// the boards of the game from the empty one on. X begins on the empty
/// board; the strategies are asked in turn, each for the board that the
/// moves so far have made, and each move is the answer given. The game ends with the
/// first move that wins, or else with the ninth move.
pub fn play_recorded<A: Strategy, B: Strategy>(strat_x: &mut A, strat_o: &mut B) -> (outcome: (
    Option<Player>,
    Vec<GameState>,
))
    requires
        old(strat_x).ready(),
        old(strat_o).ready(),
    ensures
        final(strat_x).ready(),
        final(strat_o).ready(),
        is_game(outcome.1@),
        2 <= outcome.1@.len() <= 10,
        match outcome.0 {
            Some(winner) => winner == player_at(outcome.1@.len() - 2) && outcome.1@.last().wins(
                winner,
            ),
            None => outcome.1@.len() == 10 && !outcome.1@.last().wins(player_at(8)),
        },
        forall|k: int| 0 <= k < outcome.1@.len() ==> (#[trigger] outcome.1@[k]).held_count() == k,
        is_played_by(
            *old(strat_x),
            *old(strat_o),
            outcome.1@,
            *final(strat_x),
            *final(strat_o),
        ),
{
    let mut state = initial_state();
    let mut history: Vec<GameState> = Vec::new();
    history.push(state);
    let mut turn = Player::X;
    let mut moves: usize = 0;
    let ghost mut xs: Seq<A> = seq![*strat_x];
    let ghost mut os: Seq<B> = seq![*strat_o];
    proof {
        reveal(is_played);
    }
    while moves < 9
        invariant
            moves <= 9,
            is_played(history@, xs, os),
            xs.len() == moves + 1,
            os.len() == moves + 1,
            xs[0] == *old(strat_x),
            os[0] == *old(strat_o),
            xs.last() == *strat_x,
            os.last() == *strat_o,
            strat_x.ready(),
            strat_o.ready(),
            turn == player_at(moves as int),
            state.held_count() == moves,
            history@.len() == moves + 1,
            history@.last() == state,
            is_game(history@),
            forall|k: int| 0 <= k < history@.len() ==> (#[trigger] history@[k]).held_count() == k,
            moves > 0 ==> !state.wins(player_at(moves - 1)),
        decreases 9 - moves,
    {
        proof {
            lemma_room_left(state);
        }
        let position = match turn {
            Player::X => strat_x.get_move(turn, &state),
            Player::O => strat_o.get_move(turn, &state),
        };
        let next = state.move_copy(turn, position);
        proof {
            lemma_move_counts(state, next, turn, position.0 as int, position.1 as int);
            lemma_game_goes_on(history@, next);
            let longer = history@.push(next);
            let longer_x = xs.push(*strat_x);
            let longer_o = os.push(*strat_o);
            assert(longer[moves as int] == state && longer[moves + 1] == next);
            assert(longer_x[moves as int] == xs.last() && longer_x[moves + 1] == *strat_x);
            assert(longer_o[moves as int] == os.last() && longer_o[moves + 1] == *strat_o);
            assert(turn_by(longer, longer_x, longer_o, moves as int, position));
            lemma_play_goes_on(history@, xs, os, next, *strat_x, *strat_o, position);
            xs = longer_x;
            os = longer_o;
        }
        history.push(next);
        state = next;
        moves += 1;
        if state.has_won(turn) {
            return (Some(turn), history);
        }
        turn = other(turn);
    }
    (None, history)
}

/// `winner` is the outcome of the game with the boards `states`: the game
/// has at most nine moves; a winner made the last move and holds a winning
/// line; a game without a winner has nine moves.
pub open spec fn is_outcome(winner: Option<Player>, states: Seq<GameState>) -> bool {
    &&& is_game(states)
    &&& 2 <= states.len() <= 10
    &&& match winner {
        Some(player) => player == player_at(states.len() - 2) && states.last().wins(player),
        None => states.len() == 10 && !states.last().wins(player_at(8)),
    }
}

/// `winner` is the outcome of some game.
pub open spec fn is_some_outcome(winner: Option<Player>) -> bool {
    exists|states: Seq<GameState>| #[trigger] is_outcome(winner, states)
}

/// `winner` is the outcome of a game that the strategies `strat_x` and
/// `strat_o` played, which were `after_x` and `after_o` at its end.
pub open spec fn is_result<A: Strategy, B: Strategy>(
    strat_x: A,
    strat_o: B,
    winner: Option<Player>,
    after_x: A,
    after_o: B,
) -> bool {
    exists|states: Seq<GameState>|
        (#[trigger] is_outcome(winner, states)) && is_played_by(
            strat_x,
            strat_o,
            states,
            after_x,
            after_o,
        )
}

/// Plays a game between two strategies and returns the winner, if any: the
/// outcome of the game that the two have played move by move.
pub fn play<A: Strategy, B: Strategy>(strat_x: &mut A, strat_o: &mut B) -> (winner: Option<Player>)
    requires
        old(strat_x).ready(),
        old(strat_o).ready(),
    ensures
        final(strat_x).ready(),
        final(strat_o).ready(),
        is_some_outcome(winner),
        is_result(*old(strat_x), *old(strat_o), winner, *final(strat_x), *final(strat_o)),
{
    let outcome = play_recorded(strat_x, strat_o);
    assert(is_outcome(outcome.0, outcome.1@));
    outcome.0
}

/// The character that shows a cell.
pub open spec fn mark(cell: Option<Player>) -> char {
    match cell {
        Some(Player::X) => 'X',
        Some(Player::O) => 'O',
        None => ' ',
    }
}

/// The line of text that shows the row `y`.
pub open spec fn row_text(state: GameState, y: int) -> Seq<char> {
    seq![mark(state.cell(0, y)), mark(state.cell(1, y)), mark(state.cell(2, y)), '\n']
}

/// The text that shows a board: its three rows and a line of dashes.
pub open spec fn board_text(state: GameState) -> Seq<char> {
    row_text(state, 0) + row_text(state, 1) + row_text(state, 2) + seq!['-', '-', '-', '\n']
}

/// The text that shows a board.
pub fn state_to_string(state: &GameState) -> (text: String)
    ensures
        text@ == board_text(*state),
{
    proof {
        reveal_strlit("X");
        reveal_strlit("O");
        reveal_strlit(" ");
        reveal_strlit("\n");
        reveal_strlit("---\n");
    }
    let mut text = String::new();
    let mut y: usize = 0;
    while y < 3
        invariant
            y <= 3,
            "X"@ == seq!['X'],
            "O"@ == seq!['O'],
            " "@ == seq![' '],
            "\n"@ == seq!['\n'],
            text@ == (if y == 0 {
                Seq::<char>::empty()
            } else if y == 1 {
                row_text(*state, 0)
            } else if y == 2 {
                row_text(*state, 0) + row_text(*state, 1)
            } else {
                row_text(*state, 0) + row_text(*state, 1) + row_text(*state, 2)
            }),
        decreases 3 - y,
    {
        let ghost before = text@;
        let mut x: usize = 0;
        while x < 3
            invariant
                x <= 3,
                y < 3,
                "X"@ == seq!['X'],
                "O"@ == seq!['O'],
                " "@ == seq![' '],
                text@ == before + row_text(*state, y as int).take(x as int),
            decreases 3 - x,
        {
            let shown = match state.get(x, y) {
                Some(Player::X) => "X",
                Some(Player::O) => "O",
                None => " ",
            };
            text.append(shown);
            assert(text@ =~= before + row_text(*state, y as int).take(x + 1));
            x += 1;
        }
        text.append("\n");
        assert(text@ =~= before + row_text(*state, y as int));
        y += 1;
    }
    text.append("---\n");
    assert("---\n"@ =~= seq!['-', '-', '-', '\n']);
    text
}

} // verus!
