//! Fixed strategies: random moves, the centre first, sides first, and a
//! strategy that plays by the book.

use crate::exp::tictactoe::game::{
    how_to_win, line_cell, opponent, other, GameState, Player, Strategy,
};
use crate::random::below;
use vstd::prelude::*;
use vstd::string::*;

verus! {

/// Takes a free cell at random.
pub struct RandomStrategy {
    pub rng: rand::StdRng,
}

/// Takes the centre where it is free, and else a free cell at random.
pub struct CenterStrategy {
    pub random: RandomStrategy,
}

/// Takes a free side at random, else a free corner at random, else the
/// centre.
pub struct BadStrategy {
    pub rng: rand::StdRng,
}

/// Plays by the book: completes a line, else blocks one, else makes a fork,
/// else answers a fork of the other player, else takes the centre, a corner
/// opposite to the other player, a corner, or a side. A forkable strategy
/// does not answer forks.
pub struct BestStrategy {
    pub forkable: bool,
    pub rng: rand::StdRng,
}

/// Whether the two cells are held alike.
pub fn same_cell(a: Option<Player>, b: Option<Player>) -> (r: bool)
    ensures
        r == (a == b),
{
    match a {
        Some(Player::X) => match b {
            Some(Player::X) => true,
            _ => false,
        },
        Some(Player::O) => match b {
            Some(Player::O) => true,
            _ => false,
        },
        None => match b {
            None => true,
            _ => false,
        },
    }
}

/// One of the cells, chosen at random; nothing for an empty list.
pub fn choose_move(rng: &mut rand::StdRng, moves: &Vec<(usize, usize)>) -> (chosen: Option<
    (usize, usize),
>)
    ensures
        moves@.len() == 0 ==> chosen is None,
        moves@.len() > 0 ==> chosen is Some && moves@.contains(chosen->0),
{
    if moves.len() == 0 {
        None
    } else {
        let at = below(rng, moves.len());
        Some(moves[at])
    }
}

/// Those of the given cells that are free, in the given order.
pub fn free_among(state: &GameState, cells: &Vec<(usize, usize)>) -> (free: Vec<(usize, usize)>)
    requires
        forall|k: int| 0 <= k < cells@.len() ==> (#[trigger] cells@[k]).0 < 3 && cells@[k].1 < 3,
    ensures
        free@ == cells@.filter(|c: (usize, usize)| state.cell(c.0 as int, c.1 as int) is None),
        forall|k: int|
            0 <= k < free@.len() ==> (#[trigger] free@[k]).0 < 3 && free@[k].1 < 3 && state.cell(
                free@[k].0 as int,
                free@[k].1 as int,
            ) is None && cells@.contains(free@[k]),
        forall|k: int|
            0 <= k < cells@.len() && state.cell(
                (#[trigger] cells@[k]).0 as int,
                cells@[k].1 as int,
            ) is None ==> free@.len() > 0,
{
    let ghost is_free = |c: (usize, usize)| state.cell(c.0 as int, c.1 as int) is None;
    let mut free: Vec<(usize, usize)> = Vec::new();
    let mut k: usize = 0;
    while k < cells.len()
        invariant
            k <= cells@.len(),
            is_free == (|c: (usize, usize)| state.cell(c.0 as int, c.1 as int) is None),
            forall|m: int| 0 <= m < cells@.len() ==> (#[trigger] cells@[m]).0 < 3 && cells@[m].1 < 3,
            free@ == cells@.take(k as int).filter(is_free),
            forall|m: int|
                0 <= m < free@.len() ==> (#[trigger] free@[m]).0 < 3 && free@[m].1 < 3
                    && state.cell(free@[m].0 as int, free@[m].1 as int) is None && cells@.contains(
                    free@[m],
                ),
            forall|m: int|
                0 <= m < k && state.cell((#[trigger] cells@[m]).0 as int, cells@[m].1 as int) is None
                    ==> free@.len() > 0,
        decreases cells@.len() - k,
    {
        proof {
            cells@.lemma_take_succ_push(k as int);
            cells@.take(k as int).lemma_filter_push(cells@[k as int], is_free);
        }
        let cell = cells[k];
        if state.get(cell.0, cell.1).is_none() {
            free.push(cell);
        }
        k += 1;
    }
    assert(cells@.take(k as int) == cells@);
    free
}

/// All cells, column by column.
pub fn all_cells() -> (cells: Vec<(usize, usize)>)
    ensures
        cells@.len() == 9,
        forall|x: int, y: int|
            0 <= x < 3 && 0 <= y < 3 ==> #[trigger] cells@[3 * x + y] == (x as usize, y as usize),
        forall|k: int| 0 <= k < 9 ==> (#[trigger] cells@[k]).0 < 3 && cells@[k].1 < 3,
{
    let mut cells: Vec<(usize, usize)> = Vec::new();
    cells.push((0, 0));
    cells.push((0, 1));
    cells.push((0, 2));
    cells.push((1, 0));
    cells.push((1, 1));
    cells.push((1, 2));
    cells.push((2, 0));
    cells.push((2, 1));
    cells.push((2, 2));
    cells
}

/// The free cells of the board, column by column; a board with a free cell
/// has some.
pub fn legal_moves(state: &GameState) -> (moves: Vec<(usize, usize)>)
    ensures
        forall|k: int|
            0 <= k < moves@.len() ==> (#[trigger] moves@[k]).0 < 3 && moves@[k].1 < 3 && state.cell(
                moves@[k].0 as int,
                moves@[k].1 as int,
            ) is None,
        state.has_free_cell() ==> moves@.len() > 0,
{
    let cells = all_cells();
    let moves = free_among(state, &cells);
    proof {
        if state.has_free_cell() {
            let (x, y) = choose|x: int, y: int|
                0 <= x < 3 && 0 <= y < 3 && #[trigger] state.cell(x, y) is None;
            assert(cells@[3 * x + y] == (x as usize, y as usize));
        }
    }
    moves
}

impl Strategy for RandomStrategy {
    open spec fn ready(&self) -> bool {
        true
    }

    open spec fn chooses(
        &self,
        me: Player,
        state: &GameState,
        position: (usize, usize),
        after: &Self,
    ) -> bool {
        true
    }

    fn get_move(&mut self, me: Player, state: &GameState) -> (position: (usize, usize)) {
        let moves = legal_moves(state);
        match choose_move(&mut self.rng, &moves) {
            Some(position) => {
                proof {
                    let k = choose|k: int| 0 <= k < moves@.len() && moves@[k] == position;
                    assert(moves@[k].0 < 3);
                }
                position
            },
            None => (0, 0),
        }
    }
}

impl Strategy for CenterStrategy {
    open spec fn ready(&self) -> bool {
        true
    }

    open spec fn chooses(
        &self,
        me: Player,
        state: &GameState,
        position: (usize, usize),
        after: &Self,
    ) -> bool {
        state.cell(1, 1) is None ==> position == (1usize, 1usize)
    }

    fn get_move(&mut self, me: Player, state: &GameState) -> (position: (usize, usize))
        ensures
            state.cell(1, 1) is None ==> position == (1usize, 1usize),
    {
        if state.get(1, 1).is_none() {
            (1, 1)
        } else {
            self.random.get_move(me, state)
        }
    }
}

/// The middles of the four sides.
pub fn side_cells() -> (cells: Vec<(usize, usize)>)
    ensures
        cells@ == seq![(0usize, 1usize), (1usize, 0usize), (2usize, 1usize), (1usize, 2usize)],
{
    let mut cells: Vec<(usize, usize)> = Vec::new();
    cells.push((0, 1));
    cells.push((1, 0));
    cells.push((2, 1));
    cells.push((1, 2));
    cells
}

/// The four corners.
pub fn corner_cells() -> (cells: Vec<(usize, usize)>)
    ensures
        cells@ == seq![(0usize, 0usize), (2usize, 2usize), (2usize, 0usize), (0usize, 2usize)],
{
    let mut cells: Vec<(usize, usize)> = Vec::new();
    cells.push((0, 0));
    cells.push((2, 2));
    cells.push((2, 0));
    cells.push((0, 2));
    cells
}

/// The cell is the middle of a side.
pub open spec fn is_side(x: int, y: int) -> bool {
    (x == 0 && y == 1) || (x == 1 && y == 0) || (x == 2 && y == 1) || (x == 1 && y == 2)
}

/// The cell is a corner.
pub open spec fn is_corner(x: int, y: int) -> bool {
    (x == 0 || x == 2) && (y == 0 || y == 2)
}

/// Some side is free.
pub open spec fn side_free(state: GameState) -> bool {
    state.cell(0, 1) is None || state.cell(1, 0) is None || state.cell(2, 1) is None || state.cell(
        1,
        2,
    ) is None
}

/// Some corner is free.
pub open spec fn corner_free(state: GameState) -> bool {
    state.cell(0, 0) is None || state.cell(2, 2) is None || state.cell(2, 0) is None || state.cell(
        0,
        2,
    ) is None
}

/// A free cell is the centre, a corner or a side.
pub proof fn lemma_free_cell_kinds(state: GameState)
    requires
        state.has_free_cell(),
    ensures
        state.cell(1, 1) is None || corner_free(state) || side_free(state),
{
    let (x, y) = choose|x: int, y: int|
        0 <= x < 3 && 0 <= y < 3 && #[trigger] state.cell(x, y) is None;
    if x == 0 && y == 0 {
    } else if x == 0 && y == 1 {
    } else if x == 0 && y == 2 {
    } else if x == 1 && y == 0 {
    } else if x == 1 && y == 1 {
    } else if x == 1 && y == 2 {
    } else if x == 2 && y == 0 {
    } else if x == 2 && y == 1 {
    } else {
        assert(x == 2 && y == 2);
    }
}

/// A free side chosen at random, if any.
fn free_side(state: &GameState, rng: &mut rand::StdRng) -> (chosen: Option<(usize, usize)>)
    ensures
        side_free(*state) == chosen is Some,
        chosen matches Some(position) ==> is_side(position.0 as int, position.1 as int)
            && state.cell(position.0 as int, position.1 as int) is None,
{
    let sides = side_cells();
    let free = free_among(state, &sides);
    proof {
        assert(sides@[0] == (0usize, 1usize));
        assert(sides@[1] == (1usize, 0usize));
        assert(sides@[2] == (2usize, 1usize));
        assert(sides@[3] == (1usize, 2usize));
    }
    let chosen = choose_move(rng, &free);
    proof {
        if chosen is Some {
            let position = chosen->0;
            let k = choose|k: int| 0 <= k < free@.len() && free@[k] == position;
            assert(sides@.contains(free@[k]));
            let m = choose|m: int| 0 <= m < sides@.len() && sides@[m] == position;
        }
    }
    chosen
}

/// A free corner chosen at random, if any.
fn free_corner(state: &GameState, rng: &mut rand::StdRng) -> (chosen: Option<(usize, usize)>)
    ensures
        corner_free(*state) == chosen is Some,
        chosen matches Some(position) ==> is_corner(position.0 as int, position.1 as int)
            && state.cell(position.0 as int, position.1 as int) is None,
{
    let corners = corner_cells();
    let free = free_among(state, &corners);
    proof {
        assert(corners@[0] == (0usize, 0usize));
        assert(corners@[1] == (2usize, 2usize));
        assert(corners@[2] == (2usize, 0usize));
        assert(corners@[3] == (0usize, 2usize));
    }
    let chosen = choose_move(rng, &free);
    proof {
        if chosen is Some {
            let position = chosen->0;
            let k = choose|k: int| 0 <= k < free@.len() && free@[k] == position;
            assert(corners@.contains(free@[k]));
            let m = choose|m: int| 0 <= m < corners@.len() && corners@[m] == position;
        }
    }
    chosen
}

impl Strategy for BadStrategy {
    open spec fn ready(&self) -> bool {
        true
    }

    open spec fn chooses(
        &self,
        me: Player,
        state: &GameState,
        position: (usize, usize),
        after: &Self,
    ) -> bool {
        &&& side_free(*state) ==> is_side(position.0 as int, position.1 as int)
        &&& !side_free(*state) && corner_free(*state) ==> is_corner(
            position.0 as int,
            position.1 as int,
        )
        &&& !side_free(*state) && !corner_free(*state) ==> position == (1usize, 1usize)
    }

    fn get_move(&mut self, me: Player, state: &GameState) -> (position: (usize, usize))
        ensures
            side_free(*state) ==> is_side(position.0 as int, position.1 as int),
            !side_free(*state) && corner_free(*state) ==> is_corner(
                position.0 as int,
                position.1 as int,
            ),
            !side_free(*state) && !corner_free(*state) ==> position == (1usize, 1usize),
    {
        proof {
            lemma_free_cell_kinds(*state);
        }
        match free_side(state, &mut self.rng) {
            Some(position) => {
                return position;
            },
            None => {},
        }
        match free_corner(state, &mut self.rng) {
            Some(position) => {
                return position;
            },
            None => {},
        }
        (1, 1)
    }
}

/// One where the two cells are held alike, else zero.
pub open spec fn alike(a: Option<Player>, b: Option<Player>) -> int {
    if a == b {
        1
    } else {
        0
    }
}

/// The number of cells of the line `k` that are held as `who` says: by a
/// player, or by nobody.
pub open spec fn line_count(state: GameState, who: Option<Player>, k: int) -> int {
    alike(state.cell(line_cell(k, 0).0, line_cell(k, 0).1), who) + alike(
        state.cell(line_cell(k, 1).0, line_cell(k, 1).1),
        who,
    ) + alike(state.cell(line_cell(k, 2).0, line_cell(k, 2).1), who)
}

/// The player holds two cells of the line `k` and the third is free.
pub open spec fn open_line(state: GameState, player: Player, k: int) -> bool {
    line_count(state, Some(player), k) == 2 && line_count(state, None, k) == 1
}

/// The first line at or after `start` of which the player holds two cells
/// while the third is free; eight where there is none.
pub open spec fn first_open_line(state: GameState, player: Player, start: int) -> int
    decreases 8 - start,
{
    if start < 0 || start >= 8 {
        8
    } else if open_line(state, player, start) {
        start
    } else {
        first_open_line(state, player, start + 1)
    }
}

/// The first free cell of the line `k`.
pub open spec fn line_free_cell(state: GameState, k: int) -> (int, int) {
    if state.cell(line_cell(k, 0).0, line_cell(k, 0).1) is None {
        line_cell(k, 0)
    } else if state.cell(line_cell(k, 1).0, line_cell(k, 1).1) is None {
        line_cell(k, 1)
    } else {
        line_cell(k, 2)
    }
}

/// The cell that completes the first line of which the player holds two
/// cells while the third is free.
pub open spec fn completion_of(state: GameState, player: Player) -> Option<(int, int)> {
    let k = first_open_line(state, player, 0);
    if k < 8 {
        Some(line_free_cell(state, k))
    } else {
        None
    }
}

/// The number of the first `n` lines of which the player holds two cells
/// while the third is free.
pub open spec fn open_lines(state: GameState, player: Player, n: int) -> int
    decreases n,
{
    if n <= 0 {
        0
    } else {
        open_lines(state, player, n - 1) + if open_line(state, player, n - 1) {
            1int
        } else {
            0int
        }
    }
}

/// Taking the free cell `(x, y)` gives the player a fork: two lines of
/// which the player holds two cells while the third is free.
pub open spec fn is_fork(state: GameState, player: Player, x: int, y: int) -> bool {
    exists|after: GameState| #[trigger]
        state.leads_to(after, player, x, y) && open_lines(after, player, 8) >= 2
}

/// Boards that are held alike have the same open lines.
pub proof fn lemma_open_lines_alike(a: GameState, b: GameState, player: Player, n: int)
    requires
        0 <= n <= 8,
        forall|x: int, y: int| 0 <= x < 3 && 0 <= y < 3 ==> #[trigger] a.cell(x, y) == b.cell(x, y),
    ensures
        open_lines(a, player, n) == open_lines(b, player, n),
    decreases n,
{
    if n > 0 {
        lemma_open_lines_alike(a, b, player, n - 1);
        let k = n - 1;
        assert(a.cell(line_cell(k, 0).0, line_cell(k, 0).1) == b.cell(
            line_cell(k, 0).0,
            line_cell(k, 0).1,
        ));
        assert(a.cell(line_cell(k, 1).0, line_cell(k, 1).1) == b.cell(
            line_cell(k, 1).0,
            line_cell(k, 1).1,
        ));
        assert(a.cell(line_cell(k, 2).0, line_cell(k, 2).1) == b.cell(
            line_cell(k, 2).0,
            line_cell(k, 2).1,
        ));
    }
}

/// The number of cells of the line `k` that are held as `who` says.
pub fn count_fields(state: &GameState, who: Option<Player>, k: usize) -> (n: usize)
    requires
        k < 8,
    ensures
        n == line_count(*state, who, k as int),
{
    let a = how_to_win(k, 0);
    let b = how_to_win(k, 1);
    let c = how_to_win(k, 2);
    let mut n: usize = 0;
    if same_cell(state.get(a.0, a.1), who) {
        n += 1;
    }
    if same_cell(state.get(b.0, b.1), who) {
        n += 1;
    }
    if same_cell(state.get(c.0, c.1), who) {
        n += 1;
    }
    n
}

/// The cell that completes the first line of which the player holds two
/// cells while the third is free.
pub fn completion(state: &GameState, player: Player) -> (found: Option<(usize, usize)>)
    ensures
        match found {
            Some(position) => completion_of(*state, player) == Some(
                (position.0 as int, position.1 as int),
            ) && position.0 < 3 && position.1 < 3 && state.cell(
                position.0 as int,
                position.1 as int,
            ) is None,
            None => completion_of(*state, player) is None,
        },
{
    let mut k: usize = 0;
    while k < 8
        invariant
            k <= 8,
            first_open_line(*state, player, 0) == first_open_line(*state, player, k as int),
        decreases 8 - k,
    {
        let num_mine = count_fields(state, Some(player), k);
        let num_free = count_fields(state, None, k);
        if num_mine == 2 && num_free == 1 {
            let a = how_to_win(k, 0);
            let b = how_to_win(k, 1);
            let c = how_to_win(k, 2);
            if state.get(a.0, a.1).is_none() {
                return Some(a);
            } else if state.get(b.0, b.1).is_none() {
                return Some(b);
            } else {
                return Some(c);
            }
        }
        k += 1;
    }
    None
}

/// Whether taking the free cell gives the player a fork.
pub fn next_is_fork(state: &GameState, next_player: Player, position: (usize, usize)) -> (fork:
    bool)
    requires
        position.0 < 3,
        position.1 < 3,
        state.cell(position.0 as int, position.1 as int) is None,
    ensures
        fork == is_fork(*state, next_player, position.0 as int, position.1 as int),
{
    let next_state = state.move_copy(next_player, position);
    let mut num_good_rows: usize = 0;
    let mut k: usize = 0;
    while k < 8
        invariant
            k <= 8,
            num_good_rows == open_lines(next_state, next_player, k as int),
            num_good_rows <= k,
        decreases 8 - k,
    {
        let next_num_mine = count_fields(&next_state, Some(next_player), k);
        let next_num_free = count_fields(&next_state, None, k);
        if next_num_mine == 2 && next_num_free == 1 {
            num_good_rows += 1;
        }
        k += 1;
    }
    proof {
        if num_good_rows < 2 {
            assert forall|after: GameState| #[trigger]
                state.leads_to(
                    after,
                    next_player,
                    position.0 as int,
                    position.1 as int,
                ) implies open_lines(after, next_player, 8) < 2 by {
                lemma_open_lines_alike(after, next_state, next_player, 8);
            }
        }
    }
    num_good_rows >= 2
}

/// The free cells that give the player a fork, column by column.
pub fn fork_moves(state: &GameState, player: Player) -> (forks: Vec<(usize, usize)>)
    ensures
        forall|k: int|
            0 <= k < forks@.len() ==> (#[trigger] forks@[k]).0 < 3 && forks@[k].1 < 3 && state.cell(
                forks@[k].0 as int,
                forks@[k].1 as int,
            ) is None && is_fork(*state, player, forks@[k].0 as int, forks@[k].1 as int),
        forall|x: int, y: int|
            0 <= x < 3 && 0 <= y < 3 && state.cell(x, y) is None && #[trigger] is_fork(
                *state,
                player,
                x,
                y,
            ) ==> forks@.len() > 0,
{
    let cells = all_cells();
    let mut forks: Vec<(usize, usize)> = Vec::new();
    let mut n: usize = 0;
    while n < 9
        invariant
            n <= 9,
            cells@.len() == 9,
            forall|x: int, y: int|
                0 <= x < 3 && 0 <= y < 3 ==> #[trigger] cells@[3 * x + y] == (
                    x as usize,
                    y as usize,
                ),
            forall|k: int| 0 <= k < 9 ==> (#[trigger] cells@[k]).0 < 3 && cells@[k].1 < 3,
            forall|k: int|
                0 <= k < forks@.len() ==> (#[trigger] forks@[k]).0 < 3 && forks@[k].1 < 3
                    && state.cell(forks@[k].0 as int, forks@[k].1 as int) is None && is_fork(
                    *state,
                    player,
                    forks@[k].0 as int,
                    forks@[k].1 as int,
                ),
            forall|m: int|
                0 <= m < n && state.cell((#[trigger] cells@[m]).0 as int, cells@[m].1 as int) is None
                    && is_fork(*state, player, cells@[m].0 as int, cells@[m].1 as int)
                    ==> forks@.len() > 0,
        decreases 9 - n,
    {
        let cell = cells[n];
        if state.get(cell.0, cell.1).is_none() {
            if next_is_fork(state, player, cell) {
                forks.push(cell);
            }
        }
        n += 1;
    }
    proof {
        assert forall|x: int, y: int|
            0 <= x < 3 && 0 <= y < 3 && state.cell(x, y) is None && #[trigger] is_fork(
                *state,
                player,
                x,
                y,
            ) implies forks@.len() > 0 by {
            assert(cells@[3 * x + y] == (x as usize, y as usize));
        }
    }
    forks
}


/// One of the free cells among the given ones, chosen at random.
pub fn choose_free(state: &GameState, rng: &mut rand::StdRng, cells: &Vec<(usize, usize)>) -> (chosen:
    Option<(usize, usize)>)
    requires
        forall|k: int| 0 <= k < cells@.len() ==> (#[trigger] cells@[k]).0 < 3 && cells@[k].1 < 3,
    ensures
        chosen is None ==> forall|k: int|
            0 <= k < cells@.len() ==> state.cell(
                (#[trigger] cells@[k]).0 as int,
                cells@[k].1 as int,
            ) is Some,
        chosen matches Some(position) ==> position.0 < 3 && position.1 < 3 && state.cell(
            position.0 as int,
            position.1 as int,
        ) is None && cells@.contains(position),
{
    let free = free_among(state, cells);
    let chosen = choose_move(rng, &free);
    proof {
        if chosen is Some {
            let position = chosen->0;
            let k = choose|k: int| 0 <= k < free@.len() && free@[k] == position;
            assert(cells@.contains(free@[k]));
        }
    }
    chosen
}

/// The free corners that lie opposite to a corner of the other player.
pub fn opposing_corners(state: &GameState, not_me: Player) -> (corners: Vec<(usize, usize)>)
    ensures
        forall|k: int|
            0 <= k < corners@.len() ==> (#[trigger] corners@[k]).0 < 3 && corners@[k].1 < 3
                && is_corner(corners@[k].0 as int, corners@[k].1 as int) && state.cell(
                corners@[k].0 as int,
                corners@[k].1 as int,
            ) is None && state.cell(2 - corners@[k].0, 2 - corners@[k].1) == Some(not_me),
        opposing_corner_free(*state, not_me) == (corners@.len() > 0),
{
    let mut corners: Vec<(usize, usize)> = Vec::new();
    if same_cell(state.get(0, 0), Some(not_me)) && state.get(2, 2).is_none() {
        corners.push((2, 2));
    }
    if same_cell(state.get(2, 2), Some(not_me)) && state.get(0, 0).is_none() {
        corners.push((0, 0));
    }
    if same_cell(state.get(0, 2), Some(not_me)) && state.get(2, 0).is_none() {
        corners.push((2, 0));
    }
    if same_cell(state.get(2, 0), Some(not_me)) && state.get(0, 2).is_none() {
        corners.push((0, 2));
    }
    corners
}

/// Taking the free cell `mine` and then the cell `reply` gives the other
/// player a fork.
pub open spec fn fork_after(state: GameState, me: Player, mine: (int, int), reply: (int, int)) -> bool {
    exists|after: GameState| #[trigger]
        state.leads_to(after, me, mine.0, mine.1) && is_fork(
            after,
            opponent(me),
            reply.0,
            reply.1,
        )
}

/// The cell `first` of the line `k` forces the other player to the cell
/// `second` of that line: the player holds one cell of the line while two
/// are free, the two cells are the free ones, and the block gives the other
/// player no fork.
pub open spec fn forces(state: GameState, me: Player, k: int, first: int, second: int) -> bool {
    let mine = line_cell(k, first);
    let reply = line_cell(k, second);
    &&& line_count(state, Some(me), k) == 1
    &&& line_count(state, None, k) == 2
    &&& state.cell(mine.0, mine.1) is None
    &&& !(mine.0 == reply.0 && mine.1 == reply.1)
    &&& state.cell(reply.0, reply.1) is None
    &&& !fork_after(state, me, mine, reply)
}

/// Whether the pair of cells with the number `u` forces a block: the pairs
/// are numbered line by line, and within a line by the first cell and then
/// by the second.
pub open spec fn forces_at(state: GameState, me: Player, u: int) -> bool {
    forces(state, me, u / 9, (u % 9) / 3, u % 3)
}

/// The forcing moves among the first `t` pairs of cells: for each pair that
/// forces a block, its first cell.
pub open spec fn forcing_prefix(state: GameState, me: Player, t: int) -> Seq<(usize, usize)>
    decreases t,
{
    if t <= 0 {
        Seq::empty()
    } else {
        let u = t - 1;
        let before = forcing_prefix(state, me, u);
        if forces_at(state, me, u) {
            before.push(
                (line_cell(u / 9, (u % 9) / 3).0 as usize, line_cell(u / 9, (u % 9) / 3).1 as usize),
            )
        } else {
            before
        }
    }
}

/// Pairs that force no block add no forcing move.
pub proof fn lemma_no_forcing(state: GameState, me: Player, t: int, n: int)
    requires
        0 <= t,
        0 <= n,
        forall|u: int| t <= u < t + n ==> !#[trigger] forces_at(state, me, u),
    ensures
        forcing_prefix(state, me, t + n) == forcing_prefix(state, me, t),
    decreases n,
{
    if n > 0 {
        lemma_no_forcing(state, me, t, n - 1);
        assert(!forces_at(state, me, t + n - 1));
    }
}

/// Boards that are held alike have the same forks.
pub proof fn lemma_fork_alike(a: GameState, b: GameState, player: Player, x: int, y: int)
    requires
        forall|i: int, j: int| 0 <= i < 3 && 0 <= j < 3 ==> #[trigger] a.cell(i, j) == b.cell(i, j),
    ensures
        is_fork(a, player, x, y) == is_fork(b, player, x, y),
{
    if is_fork(a, player, x, y) {
        let after = choose|after: GameState| #[trigger]
            a.leads_to(after, player, x, y) && open_lines(after, player, 8) >= 2;
        assert(b.leads_to(after, player, x, y));
    }
    if is_fork(b, player, x, y) {
        let after = choose|after: GameState| #[trigger]
            b.leads_to(after, player, x, y) && open_lines(after, player, 8) >= 2;
        assert(a.leads_to(after, player, x, y));
    }
}

/// The moves that force the other player to block: the free cells of the
/// lines of which the player holds one cell while two are free, as far as
/// the block that they call for gives the other player no fork. The lines
/// are taken in their order, and the cells of a line in theirs.
pub fn forcing_moves(state: &GameState, me: Player) -> (moves: Vec<(usize, usize)>)
    ensures
        moves@ == forcing_prefix(*state, me, 72),
        forall|k: int|
            0 <= k < moves@.len() ==> (#[trigger] moves@[k]).0 < 3 && moves@[k].1 < 3 && state.cell(
                moves@[k].0 as int,
                moves@[k].1 as int,
            ) is None,
{
    let not_me = other(me);
    let mut moves: Vec<(usize, usize)> = Vec::new();
    let mut k: usize = 0;
    while k < 8
        invariant
            k <= 8,
            not_me == opponent(me),
            moves@ == forcing_prefix(*state, me, 9 * k),
            forall|m: int|
                0 <= m < moves@.len() ==> (#[trigger] moves@[m]).0 < 3 && moves@[m].1 < 3
                    && state.cell(moves@[m].0 as int, moves@[m].1 as int) is None,
        decreases 8 - k,
    {
        let num_mine = count_fields(state, Some(me), k);
        let num_free = count_fields(state, None, k);
        if num_mine == 1 && num_free == 2 {
            let mut first: usize = 0;
            while first < 3
                invariant
                    first <= 3,
                    k < 8,
                    not_me == opponent(me),
                    line_count(*state, Some(me), k as int) == 1,
                    line_count(*state, None, k as int) == 2,
                    moves@ == forcing_prefix(*state, me, 9 * k + 3 * first),
                    forall|m: int|
                        0 <= m < moves@.len() ==> (#[trigger] moves@[m]).0 < 3 && moves@[m].1 < 3
                            && state.cell(moves@[m].0 as int, moves@[m].1 as int) is None,
                decreases 3 - first,
            {
                let mine = how_to_win(k, first);
                if state.get(mine.0, mine.1).is_none() {
                    let next_state = state.move_copy(me, mine);
                    let mut second: usize = 0;
                    while second < 3
                        invariant
                            second <= 3,
                            first < 3,
                            k < 8,
                            not_me == opponent(me),
                            mine.0 == line_cell(k as int, first as int).0,
                            mine.1 == line_cell(k as int, first as int).1,
                            mine.0 < 3,
                            mine.1 < 3,
                            state.cell(mine.0 as int, mine.1 as int) is None,
                            state.leads_to(next_state, me, mine.0 as int, mine.1 as int),
                            line_count(*state, Some(me), k as int) == 1,
                            line_count(*state, None, k as int) == 2,
                            moves@ == forcing_prefix(*state, me, 9 * k + 3 * first + second),
                            forall|m: int|
                                0 <= m < moves@.len() ==> (#[trigger] moves@[m]).0 < 3
                                    && moves@[m].1 < 3 && state.cell(
                                    moves@[m].0 as int,
                                    moves@[m].1 as int,
                                ) is None,
                        decreases 3 - second,
                    {
                        let reply = how_to_win(k, second);
                        let ghost u = 9 * k + 3 * first + second;
                        let ghost mine_cell = line_cell(k as int, first as int);
                        let ghost reply_cell = line_cell(k as int, second as int);
                        proof {
                            assert(u / 9 == k && (u % 9) / 3 == first && u % 3 == second);
                        }
                        if (mine.0 != reply.0 || mine.1 != reply.1) && next_state.get(
                            reply.0,
                            reply.1,
                        ).is_none() {
                            let fork = next_is_fork(&next_state, not_me, reply);
                            proof {
                                assert(next_state.cell(reply.0 as int, reply.1 as int)
                                    == state.cell(reply.0 as int, reply.1 as int));
                                if fork {
                                    assert(fork_after(*state, me, mine_cell, reply_cell));
                                } else {
                                    assert forall|after: GameState| #[trigger]
                                        state.leads_to(
                                            after,
                                            me,
                                            mine_cell.0,
                                            mine_cell.1,
                                        ) implies !is_fork(
                                        after,
                                        opponent(me),
                                        reply_cell.0,
                                        reply_cell.1,
                                    ) by {
                                        lemma_fork_alike(
                                            after,
                                            next_state,
                                            opponent(me),
                                            reply_cell.0,
                                            reply_cell.1,
                                        );
                                    }
                                }
                                assert(forces_at(*state, me, u) == !fork);
                            }
                            if !fork {
                                moves.push(mine);
                            }
                        } else {
                            proof {
                                if !(mine.0 != reply.0 || mine.1 != reply.1) {
                                } else {
                                    assert(next_state.cell(reply.0 as int, reply.1 as int)
                                        == state.cell(reply.0 as int, reply.1 as int));
                                }
                                assert(!forces_at(*state, me, u));
                            }
                        }
                        second += 1;
                    }
                } else {
                    proof {
                        let t = 9 * k + 3 * first;
                        assert forall|u: int| t <= u < t + 3 implies !#[trigger] forces_at(
                            *state,
                            me,
                            u,
                        ) by {
                            assert(u / 9 == k && (u % 9) / 3 == first);
                        }
                        lemma_no_forcing(*state, me, t, 3);
                    }
                }
                first += 1;
            }
        } else {
            proof {
                let t = 9 * k;
                assert forall|u: int| t <= u < t + 9 implies !#[trigger] forces_at(
                    *state,
                    me,
                    u,
                ) by {
                    assert(u / 9 == k);
                }
                lemma_no_forcing(*state, me, t, 9);
            }
        }
        k += 1;
    }
    moves
}

/// The cell with the number `n`, the cells counted column by column, is
/// free and would give the player a fork.
pub open spec fn fork_at(state: GameState, player: Player, n: int) -> bool {
    state.cell(n / 3, n % 3) is None && is_fork(state, player, n / 3, n % 3)
}

/// The other player can make a fork.
pub open spec fn fork_threatens(state: GameState, me: Player) -> bool {
    exists|m: int| 0 <= m < 9 && #[trigger] fork_at(state, opponent(me), m)
}

/// `position` answers a fork that the other player can make: it is one
/// of the forcing moves or, where there is none, the first cell, column by
/// column, that would give the other player a fork.
pub open spec fn answers_fork(state: GameState, me: Player, position: (usize, usize)) -> bool {
    let forcing = forcing_prefix(state, me, 72);
    if forcing.len() > 0 {
        forcing.contains(position)
    } else {
        &&& position.0 < 3
        &&& position.1 < 3
        &&& fork_at(state, opponent(me), 3 * position.0 + position.1)
        &&& forall|m: int|
            0 <= m < 3 * position.0 + position.1 ==> !#[trigger] fork_at(state, opponent(me), m)
    }
}

/// The answer to a fork of the other player: for the first free cell,
/// column by column, that would give the other player a fork, a forcing
/// move chosen at random or, where there is none, that cell itself.
pub fn answer_fork(state: &GameState, me: Player, rng: &mut rand::StdRng) -> (answer: Option<
    (usize, usize),
>)
    ensures
        answer matches Some(position) ==> position.0 < 3 && position.1 < 3 && state.cell(
            position.0 as int,
            position.1 as int,
        ) is None,
        answer is None ==> forall|x: int, y: int|
            0 <= x < 3 && 0 <= y < 3 && state.cell(x, y) is None ==> !#[trigger] is_fork(
                *state,
                opponent(me),
                x,
                y,
            ),
        answer is Some ==> exists|x: int, y: int|
            0 <= x < 3 && 0 <= y < 3 && state.cell(x, y) is None && #[trigger] is_fork(
                *state,
                opponent(me),
                x,
                y,
            ),
        answer is Some == fork_threatens(*state, me),
        answer matches Some(position) ==> answers_fork(*state, me, position),
{
    let not_me = other(me);
    let cells = all_cells();
    let mut n: usize = 0;
    while n < 9
        invariant
            n <= 9,
            not_me == opponent(me),
            cells@.len() == 9,
            forall|x: int, y: int|
                0 <= x < 3 && 0 <= y < 3 ==> #[trigger] cells@[3 * x + y] == (
                    x as usize,
                    y as usize,
                ),
            forall|k: int| 0 <= k < 9 ==> (#[trigger] cells@[k]).0 < 3 && cells@[k].1 < 3,
            forall|m: int|
                0 <= m < n && state.cell((#[trigger] cells@[m]).0 as int, cells@[m].1 as int) is None
                    ==> !is_fork(*state, not_me, cells@[m].0 as int, cells@[m].1 as int),
            forall|m: int| 0 <= m < n ==> !#[trigger] fork_at(*state, not_me, m),
        decreases 9 - n,
    {
        let cell = cells[n];
        proof {
            let x = n as int / 3;
            let y = n as int % 3;
            assert(cells@[3 * x + y] == (x as usize, y as usize));
            assert(cell == (x as usize, y as usize));
        }
        if state.get(cell.0, cell.1).is_none() {
            if next_is_fork(state, not_me, cell) {
                assert(is_fork(*state, opponent(me), cell.0 as int, cell.1 as int));
                assert(fork_at(*state, opponent(me), n as int));
                let forcing = forcing_moves(state, me);
                return match choose_move(rng, &forcing) {
                    Some(position) => {
                        proof {
                            let k = choose|k: int|
                                0 <= k < forcing@.len() && forcing@[k] == position;
                            assert(forcing@[k].0 < 3);
                        }
                        Some(position)
                    },
                    None => Some(cell),
                };
            }
        }
        n += 1;
    }
    proof {
        assert forall|x: int, y: int|
            0 <= x < 3 && 0 <= y < 3 && state.cell(x, y) is None implies !#[trigger] is_fork(
            *state,
            opponent(me),
            x,
            y,
        ) by {
            assert(cells@[3 * x + y] == (x as usize, y as usize));
        }
    }
    None
}

/// The four corners, in the order in which the book strategy looks at
/// them.
pub fn book_corner_cells() -> (cells: Vec<(usize, usize)>)
    ensures
        cells@ == seq![(2usize, 2usize), (0usize, 0usize), (2usize, 0usize), (0usize, 2usize)],
{
    let mut cells: Vec<(usize, usize)> = Vec::new();
    cells.push((2, 2));
    cells.push((0, 0));
    cells.push((2, 0));
    cells.push((0, 2));
    cells
}

/// Some free corner lies opposite to a corner of the player `not_me`.
pub open spec fn opposing_corner_free(state: GameState, not_me: Player) -> bool {
    (state.cell(0, 0) == Some(not_me) && state.cell(2, 2) is None) || (state.cell(2, 2) == Some(
        not_me,
    ) && state.cell(0, 0) is None) || (state.cell(0, 2) == Some(not_me) && state.cell(2, 0) is None)
        || (state.cell(2, 0) == Some(not_me) && state.cell(0, 2) is None)
}

/// The book has nothing to say on lines and forks: neither player can
/// complete a line, the player can make no fork, and the other player can
/// make none either, unless the strategy is forkable and does not look for
/// one.
pub open spec fn book_silent(state: GameState, me: Player, forkable: bool) -> bool {
    &&& completion_of(state, me) is None
    &&& completion_of(state, opponent(me)) is None
    &&& forall|x: int, y: int|
        0 <= x < 3 && 0 <= y < 3 && state.cell(x, y) is None ==> !#[trigger] is_fork(
            state,
            me,
            x,
            y,
        )
    &&& forkable || forall|x: int, y: int|
        0 <= x < 3 && 0 <= y < 3 && state.cell(x, y) is None ==> !#[trigger] is_fork(
            state,
            opponent(me),
            x,
            y,
        )
}

/// Neither player can complete a line and the player can make no fork, but
/// the other player can.
pub open spec fn fork_is_open(state: GameState, me: Player) -> bool {
    &&& completion_of(state, me) is None
    &&& completion_of(state, opponent(me)) is None
    &&& forall|x: int, y: int|
        0 <= x < 3 && 0 <= y < 3 && state.cell(x, y) is None ==> !#[trigger] is_fork(
            state,
            me,
            x,
            y,
        )
    &&& fork_threatens(state, me)
}

/// The position as a pair of integers.
pub open spec fn as_cell(position: (usize, usize)) -> (int, int) {
    (position.0 as int, position.1 as int)
}

impl Strategy for BestStrategy {
    open spec fn ready(&self) -> bool {
        true
    }

    open spec fn chooses(
        &self,
        me: Player,
        state: &GameState,
        position: (usize, usize),
        after: &Self,
    ) -> bool {
        &&& completion_of(*state, me) matches Some(cell) ==> as_cell(position) == cell
        &&& completion_of(*state, me) is None ==> (completion_of(*state, opponent(me)) matches Some(
            cell,
        ) ==> as_cell(position) == cell)
        &&& completion_of(*state, me) is None && completion_of(*state, opponent(me)) is None && (
        exists|x: int, y: int|
            0 <= x < 3 && 0 <= y < 3 && state.cell(x, y) is None && #[trigger] is_fork(
                *state,
                me,
                x,
                y,
            )) ==> is_fork(*state, me, position.0 as int, position.1 as int)
        &&& !self.forkable && fork_is_open(*state, me) ==> answers_fork(*state, me, position)
        &&& book_silent(*state, me, self.forkable) ==> (if state.cell(1, 1) is None {
            position == (1usize, 1usize)
        } else if opposing_corner_free(*state, opponent(me)) {
            is_corner(position.0 as int, position.1 as int) && state.cell(
                2 - position.0,
                2 - position.1,
            ) == Some(opponent(me))
        } else if corner_free(*state) {
            is_corner(position.0 as int, position.1 as int)
        } else {
            is_side(position.0 as int, position.1 as int)
        })
    }

    fn get_move(&mut self, me: Player, state: &GameState) -> (position: (usize, usize))
        ensures
            completion_of(*state, me) matches Some(cell) ==> as_cell(position) == cell,
            completion_of(*state, me) is None ==> (completion_of(*state, opponent(me)) matches Some(
                cell,
            ) ==> as_cell(position) == cell),
            completion_of(*state, me) is None && completion_of(*state, opponent(me)) is None && (
            exists|x: int, y: int|
                0 <= x < 3 && 0 <= y < 3 && state.cell(x, y) is None && #[trigger] is_fork(
                    *state,
                    me,
                    x,
                    y,
                )) ==> is_fork(*state, me, position.0 as int, position.1 as int),
            !old(self).forkable && fork_is_open(*state, me) ==> answers_fork(*state, me, position),
            book_silent(*state, me, old(self).forkable) ==> (if state.cell(1, 1) is None {
                position == (1usize, 1usize)
            } else if opposing_corner_free(*state, opponent(me)) {
                is_corner(position.0 as int, position.1 as int) && state.cell(
                    2 - position.0,
                    2 - position.1,
                ) == Some(opponent(me))
            } else if corner_free(*state) {
                is_corner(position.0 as int, position.1 as int)
            } else {
                is_side(position.0 as int, position.1 as int)
            }),
    {
        let not_me = other(me);
        match completion(state, me) {
            Some(position) => {
                return position;
            },
            None => {},
        }
        match completion(state, not_me) {
            Some(position) => {
                return position;
            },
            None => {},
        }
        let forks = fork_moves(state, me);
        match choose_move(&mut self.rng, &forks) {
            Some(position) => {
                proof {
                    let k = choose|k: int| 0 <= k < forks@.len() && forks@[k] == position;
                    assert(forks@[k].0 < 3);
                    assert(is_fork(*state, me, position.0 as int, position.1 as int));
                }
                return position;
            },
            None => {},
        }
        if !self.forkable {
            match answer_fork(state, me, &mut self.rng) {
                Some(position) => {
                    return position;
                },
                None => {},
            }
        }
        if state.get(1, 1).is_none() {
            return (1, 1);
        }
        let opposing = opposing_corners(state, not_me);
        match choose_move(&mut self.rng, &opposing) {
            Some(position) => {
                proof {
                    let k = choose|k: int| 0 <= k < opposing@.len() && opposing@[k] == position;
                    assert(opposing@[k].0 < 3);
                }
                return position;
            },
            None => {},
        }
        let corners = book_corner_cells();
        proof {
            assert(corners@[0] == (2usize, 2usize));
            assert(corners@[1] == (0usize, 0usize));
            assert(corners@[2] == (2usize, 0usize));
            assert(corners@[3] == (0usize, 2usize));
        }
        match choose_free(state, &mut self.rng, &corners) {
            Some(position) => {
                proof {
                    let k = choose|k: int| 0 <= k < corners@.len() && corners@[k] == position;
                }
                return position;
            },
            None => {},
        }
        let sides = side_cells();
        proof {
            assert(sides@[0] == (0usize, 1usize));
            assert(sides@[1] == (1usize, 0usize));
            assert(sides@[2] == (2usize, 1usize));
            assert(sides@[3] == (1usize, 2usize));
        }
        match choose_free(state, &mut self.rng, &sides) {
            Some(position) => {
                proof {
                    let k = choose|k: int| 0 <= k < sides@.len() && sides@[k] == position;
                }
                return position;
            },
            None => {},
        }
        proof {
            lemma_free_cell_kinds(*state);
        }
        (1, 1)
    }
}

/// The digit that a character shows.
pub open spec fn digit_value(c: char) -> Option<int> {
    if '0' <= c && c <= '9' {
        Some(c as int - '0' as int)
    } else {
        None
    }
}

/// The number that the first `n` characters show, where they are all
/// digits.
pub open spec fn number_shown(text: Seq<char>, n: int) -> Option<int>
    decreases n,
{
    if n <= 0 {
        Some(0)
    } else {
        match (number_shown(text, n - 1), digit_value(text[n - 1])) {
            (Some(before), Some(digit)) => Some(10 * before + digit),
            _ => None,
        }
    }
}

/// The move that a typed line asks for: the line holds, before its last
/// character, the number of a free cell and nothing else; the cells are
/// numbered row by row from zero to eight.
pub open spec fn typed_move(line: Seq<char>, state: GameState) -> Option<(int, int)> {
    if line.len() < 2 {
        None
    } else {
        match number_shown(line, line.len() - 1) {
            Some(n) => if n < 9 && state.cell(n % 3, n / 3) is None {
                Some((n % 3, n / 3))
            } else {
                None
            },
            None => None,
        }
    }
}

/// The digit that a character shows.
pub fn digit_of(c: char) -> (digit: Option<usize>)
    ensures
        match digit {
            Some(d) => digit_value(c) == Some(d as int) && d <= 9,
            None => digit_value(c) is None,
        },
{
    let code = c as u32;
    if 48 <= code && code <= 57 {
        Some((code - 48) as usize)
    } else {
        None
    }
}

/// A number shown by digits does not fall when digits follow.
pub proof fn lemma_number_grows(text: Seq<char>, m: int, n: int)
    requires
        0 <= m <= n,
        number_shown(text, n) is Some,
    ensures
        number_shown(text, m) is Some,
        0 <= number_shown(text, m)->0 <= number_shown(text, n)->0,
    decreases n - m,
{
    if m < n {
        lemma_number_grows(text, m, n - 1);
    } else {
        lemma_number_not_negative(text, n);
    }
}

/// A number shown by digits is not negative.
pub proof fn lemma_number_not_negative(text: Seq<char>, n: int)
    requires
        number_shown(text, n) is Some,
    ensures
        number_shown(text, n)->0 >= 0,
    decreases n,
{
    if n > 0 {
        lemma_number_not_negative(text, n - 1);
    }
}

/// The move that a typed line asks for, if it asks for one.
pub fn input_move(line: &str, state: &GameState) -> (position: Option<(usize, usize)>)
    ensures
        match position {
            Some(p) => typed_move(line@, *state) == Some((p.0 as int, p.1 as int)) && p.0 < 3 && p.1
                < 3 && state.cell(p.0 as int, p.1 as int) is None,
            None => typed_move(line@, *state) is None,
        },
{
    let len = line.unicode_len();
    if len < 2 {
        return None;
    }
    let mut n: usize = 0;
    let mut k: usize = 0;
    while k < len - 1
        invariant
            k <= len - 1,
            len == line@.len(),
            n < 9,
            number_shown(line@, k as int) == Some(n as int),
        decreases len - 1 - k,
    {
        match digit_of(line.get_char(k)) {
            Some(digit) => {
                if n * 10 + digit >= 9 {
                    proof {
                        if number_shown(line@, len - 1) is Some {
                            lemma_number_grows(line@, k + 1, len - 1);
                        }
                    }
                    return None;
                }
                n = n * 10 + digit;
            },
            None => {
                proof {
                    if number_shown(line@, len - 1) is Some {
                        lemma_number_grows(line@, k + 1, len - 1);
                    }
                }
                return None;
            },
        }
        k += 1;
    }
    let x = n % 3;
    let y = n / 3;
    if state.get(x, y).is_some() {
        return None;
    }
    Some((x, y))
}

} // verus!
