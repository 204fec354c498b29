//! The game state machine: board representation, move legality, the vanish
//! rule, win detection and turn switching.
//!
//! The board is a 3x3 grid of cells addressed by coordinates
//! `(x, y)` with `0 <= x < 3` and `0 <= y < 3`; cell `(x, y)` is stored at
//! index `3 * y + x` of a row-major vector. A move history records the
//! coordinates of the marks currently on the board, oldest first; whenever a
//! seventh mark would appear, the oldest one vanishes.

use vstd::prelude::*;

verus! {

/// One of the two players.
#[derive(Copy, Debug, PartialEq, Eq, Structural)]
pub enum Player {
    X,
    O,
}

impl Clone for Player {
    fn clone(&self) -> (r: Player)
        ensures
            r == *self,
    {
        *self
    }
}

impl Player {
    /// The opponent of this player.
    pub open spec fn other(self) -> Player {
        match self {
            Player::X => Player::O,
            Player::O => Player::X,
        }
    }
}

/// The state of one board cell: empty, or occupied by a player's mark.
#[derive(Copy, Debug, PartialEq, Eq, Structural)]
pub enum Cell {
    Empty,
    Occupied(Player),
}

impl Clone for Cell {
    fn clone(&self) -> (r: Cell)
        ensures
            r == *self,
    {
        *self
    }
}

/// The eight fixed winning lines, each a triple of cell coordinates, in the
/// order in which the win check scans them: the three rows, then the three
/// columns, then the two diagonals.
pub open spec fn lines_table() -> Seq<Seq<(usize, usize)>> {
    seq![
        seq![(0usize, 0usize), (1usize, 0usize), (2usize, 0usize)],
        seq![(0usize, 1usize), (1usize, 1usize), (2usize, 1usize)],
        seq![(0usize, 2usize), (1usize, 2usize), (2usize, 2usize)],
        seq![(0usize, 0usize), (0usize, 1usize), (0usize, 2usize)],
        seq![(1usize, 0usize), (1usize, 1usize), (1usize, 2usize)],
        seq![(2usize, 0usize), (2usize, 1usize), (2usize, 2usize)],
        seq![(0usize, 0usize), (1usize, 1usize), (2usize, 2usize)],
        seq![(2usize, 0usize), (1usize, 1usize), (0usize, 2usize)],
    ]
}

/// The coordinates of the `k`-th cell of winning line `l`.
pub open spec fn line_coord(l: int, k: int) -> (usize, usize) {
    lines_table()[l][k]
}

/// Whether a coordinate pair addresses a cell of the 3x3 board.
pub open spec fn coord_in_range(c: (usize, usize)) -> bool {
    c.0 < 3 && c.1 < 3
}

/// The coordinates of the `k`-th cell of winning line `l`, as executable code.
pub fn line_cell(l: usize, k: usize) -> (r: (usize, usize))
    requires
        l < 8,
        k < 3,
    ensures
        r == line_coord(l as int, k as int),
        coord_in_range(r),
{
    let coords: (usize, usize) = match (l, k) {
        (0, 0) => (0, 0),
        (0, 1) => (1, 0),
        (0, _) => (2, 0),
        (1, 0) => (0, 1),
        (1, 1) => (1, 1),
        (1, _) => (2, 1),
        (2, 0) => (0, 2),
        (2, 1) => (1, 2),
        (2, _) => (2, 2),
        (3, 0) => (0, 0),
        (3, 1) => (0, 1),
        (3, _) => (0, 2),
        (4, 0) => (1, 0),
        (4, 1) => (1, 1),
        (4, _) => (1, 2),
        (5, 0) => (2, 0),
        (5, 1) => (2, 1),
        (5, _) => (2, 2),
        (6, 0) => (0, 0),
        (6, 1) => (1, 1),
        (6, _) => (2, 2),
        (7, 0) => (2, 0),
        (7, 1) => (1, 1),
        (_, _) => (0, 2),
    };
    coords
}

/// Distinct in-range coordinates have distinct row-major indices.
proof fn lemma_index_injective(a: (usize, usize), b: (usize, usize))
    requires
        coord_in_range(a),
        coord_in_range(b),
        3 * a.1 + a.0 == 3 * b.1 + b.0,
    ensures
        a == b,
{
}

/// The mathematical model of a game state.
#[verifier::ext_equal]
pub struct GameView {
    /// The nine board cells, row-major: cell `(x, y)` at index `3 * y + x`.
    pub grid: Seq<Cell>,
    /// The player to move (after a win: the winner).
    pub turn: Player,
    /// The coordinates of the marks currently on the board, oldest first.
    pub history: Seq<(usize, usize)>,
    /// The index into `lines_table()` of the recorded winning line, if any.
    pub outcome: Option<int>,
}

impl GameView {
    /// The cell at coordinates `(x, y)`.
    pub open spec fn cell(self, x: usize, y: usize) -> Cell {
        self.grid[3 * y + x]
    }

    /// The cell at a coordinate pair.
    pub open spec fn cell_of(self, c: (usize, usize)) -> Cell {
        self.cell(c.0, c.1)
    }

    /// The game is over exactly when a winning line is recorded.
    pub open spec fn is_over(self) -> bool {
        self.outcome is Some
    }

    /// All three cells of line `l` hold a mark of player `p`.
    pub open spec fn line_won_by(self, l: int, p: Player) -> bool {
        &&& self.cell_of(line_coord(l, 0)) == Cell::Occupied(p)
        &&& self.cell_of(line_coord(l, 1)) == Cell::Occupied(p)
        &&& self.cell_of(line_coord(l, 2)) == Cell::Occupied(p)
    }

    /// All three cells of line `l` hold marks of one and the same player.
    pub open spec fn line_complete(self, l: int) -> bool {
        &&& self.cell_of(line_coord(l, 0)) matches Cell::Occupied(p)
        &&& self.cell_of(line_coord(l, 1)) == Cell::Occupied(p)
        &&& self.cell_of(line_coord(l, 2)) == Cell::Occupied(p)
    }

    /// The first completed line at or after index `l`, in enumeration order.
    pub open spec fn first_complete_from(self, l: int) -> Option<int>
        decreases 8 - l,
    {
        if l >= 8 {
            None
        } else if self.line_complete(l) {
            Some(l)
        } else {
            self.first_complete_from(l + 1)
        }
    }

    /// The first completed line in enumeration order (rows, columns,
    /// diagonals), if any.
    pub open spec fn first_complete_line(self) -> Option<int> {
        self.first_complete_from(0)
    }

    /// The initial state: empty board, player X to move, empty history, no
    /// winning line.
    pub open spec fn init() -> GameView {
        GameView {
            grid: Seq::new(9, |i: int| Cell::Empty),
            turn: Player::X,
            history: Seq::empty(),
            outcome: None,
        }
    }

    /// The grid has exactly nine cells.
    pub open spec fn grid_ok(self) -> bool {
        self.grid.len() == 9
    }

    /// The history records exactly the occupied cells: at most six entries,
    /// each in range, each pointing at an occupied cell, no coordinate twice,
    /// and every occupied cell recorded.
    pub open spec fn history_ok(self) -> bool {
        &&& self.history.len() <= 6
        &&& forall|i: int| 0 <= i < self.history.len() ==> coord_in_range(#[trigger] self.history[i])
        &&& forall|i: int|
            0 <= i < self.history.len() ==> self.cell_of(#[trigger] self.history[i]) is Occupied
        &&& forall|i: int, j: int|
            0 <= i < j < self.history.len() ==> self.history[i] != self.history[j]
        &&& forall|x: usize, y: usize|
            x < 3 && y < 3 && #[trigger] self.cell(x, y) is Occupied ==> self.history.contains(
                (x, y),
            )
    }

    /// A recorded winning line is one of the eight lines and is completed.
    pub open spec fn outcome_ok(self) -> bool {
        self.outcome matches Some(l) ==> 0 <= l < 8 && self.line_complete(l)
    }

    /// Well-formedness: every state the library produces satisfies this.
    pub open spec fn wf(self) -> bool {
        &&& self.grid_ok()
        &&& self.history_ok()
        &&& self.outcome_ok()
    }

    /// The board and history after placing the current player's mark at
    /// `(x, y)`.
    pub open spec fn place(self, x: usize, y: usize) -> GameView {
        GameView {
            grid: self.grid.update(3 * y + x, Cell::Occupied(self.turn)),
            history: self.history.push((x, y)),
            ..self
        }
    }

    /// The vanish rule: if more than six marks are recorded, the oldest one
    /// leaves the board and its cell becomes empty.
    pub open spec fn vanish(self) -> GameView {
        if self.history.len() > 6 {
            GameView {
                grid: self.grid.update(
                    3 * self.history[0].1 + self.history[0].0,
                    Cell::Empty,
                ),
                history: self.history.drop_first(),
                ..self
            }
        } else {
            self
        }
    }

    /// A move at `(x, y)` is accepted exactly when the game is not over, the
    /// coordinates address a board cell, and that cell is empty.
    pub open spec fn move_accepted(self, x: usize, y: usize) -> bool {
        &&& !self.is_over()
        &&& x < 3 && y < 3
        &&& self.cell(x, y) == Cell::Empty
    }

    /// One move-application operation at `(x, y)`: a rejected move leaves the
    /// state unchanged; an accepted one places the mark, applies the vanish
    /// rule, records the first completed line (if any), and passes the turn
    /// unless that line ended the game.
    pub open spec fn step(self, x: usize, y: usize) -> GameView {
        if !self.move_accepted(x, y) {
            self
        } else {
            let placed = self.place(x, y).vanish();
            let checked = GameView { outcome: placed.first_complete_line(), ..placed };
            if checked.is_over() {
                checked
            } else {
                GameView { turn: self.turn.other(), ..checked }
            }
        }
    }

    /// What the first-completed-line scan returns: the least index of a
    /// completed line at or after `l0`, or nothing when no line at or after
    /// `l0` is completed.
    pub proof fn lemma_first_complete_from(self, l0: int)
        ensures
            self.first_complete_from(l0) matches Some(l) ==> l0 <= l < 8 && self.line_complete(l)
                && (forall|j: int| l0 <= j < l ==> !self.line_complete(j)),
            self.first_complete_from(l0) is None ==> (forall|j: int|
                l0 <= j < 8 ==> !self.line_complete(j)),
        decreases 8 - l0,
    {
        if l0 < 8 && !self.line_complete(l0) {
            self.lemma_first_complete_from(l0 + 1);
        }
    }

    /// The recorded line after a win check is the first completed line in
    /// enumeration order, and exists exactly when some line is completed.
    pub proof fn lemma_first_complete_line_spec(self)
        ensures
            self.first_complete_line() matches Some(l) ==> 0 <= l < 8 && self.line_complete(l)
                && (forall|j: int| 0 <= j < l ==> !self.line_complete(j)),
            self.first_complete_line() is None ==> (forall|j: int|
                0 <= j < 8 ==> !self.line_complete(j)),
    {
        self.lemma_first_complete_from(0);
    }

    /// One move-application operation preserves well-formedness. In
    /// particular the history never exceeds six entries.
    pub proof fn lemma_step_preserves_wf(self, x: usize, y: usize)
        requires
            self.wf(),
        ensures
            self.step(x, y).wf(),
            self.step(x, y).history.len() <= 6,
    {
        if self.move_accepted(x, y) {
            let h = self.history;
            let n = h.len() as int;
            let placed = self.place(x, y).vanish();
            let f = self.step(x, y);

            // The target cell is empty, so it is not among the recorded marks.
            assert forall|i: int| 0 <= i < n implies h[i] != (x, y) by {
                assert(self.cell_of(h[i]) is Occupied);
            }

            if n < 6 {
                // No eviction: the history gains the new mark at the end.
                assert(f.history =~= h.push((x, y)));
                assert forall|i: int| 0 <= i < f.history.len() implies coord_in_range(
                    #[trigger] f.history[i],
                ) && f.cell_of(f.history[i]) is Occupied by {
                    if i < n {
                        assert(coord_in_range(h[i]));
                        assert(self.cell_of(h[i]) is Occupied);
                        if 3 * h[i].1 + h[i].0 == 3 * y + x {
                            lemma_index_injective(h[i], (x, y));
                        }
                    }
                }
                assert forall|a: usize, b: usize|
                    a < 3 && b < 3 && #[trigger] f.cell(a, b) is Occupied implies f.history.contains(
                    (a, b),
                ) by {
                    if 3 * b + a == 3 * y + x {
                        lemma_index_injective((a, b), (x, y));
                        assert(f.history[n] == (x, y));
                    } else {
                        assert(self.cell(a, b) is Occupied);
                        let j = choose|j: int| 0 <= j < n && h[j] == (a, b);
                        assert(f.history[j] == (a, b));
                    }
                }
            } else {
                // Eviction: the oldest mark leaves, the new one is appended.
                let e = h[0];
                assert(coord_in_range(e));
                assert(self.cell_of(e) is Occupied);
                if 3 * e.1 + e.0 == 3 * y + x {
                    lemma_index_injective(e, (x, y));
                    assert(false);
                }
                assert(f.history =~= h.drop_first().push((x, y)));
                assert forall|i: int| 0 <= i < f.history.len() implies coord_in_range(
                    #[trigger] f.history[i],
                ) && f.cell_of(f.history[i]) is Occupied by {
                    if i < n - 1 {
                        let c = h[i + 1];
                        assert(f.history[i] == c);
                        assert(coord_in_range(c));
                        assert(self.cell_of(c) is Occupied);
                        if 3 * c.1 + c.0 == 3 * y + x {
                            lemma_index_injective(c, (x, y));
                        }
                        if 3 * c.1 + c.0 == 3 * e.1 + e.0 {
                            lemma_index_injective(c, e);
                        }
                    }
                }
                assert forall|i: int, j: int|
                    0 <= i < j < f.history.len() implies f.history[i] != f.history[j] by {
                    if j < n - 1 {
                        assert(h[i + 1] != h[j + 1]);
                    } else {
                        assert(h[i + 1] != (x, y));
                    }
                }
                assert forall|a: usize, b: usize|
                    a < 3 && b < 3 && #[trigger] f.cell(a, b) is Occupied implies f.history.contains(
                    (a, b),
                ) by {
                    if 3 * b + a == 3 * y + x {
                        lemma_index_injective((a, b), (x, y));
                        assert(f.history[n - 1] == (x, y));
                    } else {
                        assert(f.cell(a, b) == self.cell(a, b));
                        let j = choose|j: int| 0 <= j < n && h[j] == (a, b);
                        if j == 0 {
                            assert((a, b) == e);
                            assert(f.cell(a, b) == Cell::Empty);
                        } else {
                            assert(f.history[j - 1] == (a, b));
                        }
                    }
                }
            }

            // The recorded outcome is the first completed line of the new
            // board, hence a completed line of the new state.
            placed.lemma_first_complete_line_spec();
        }
    }

    /// Well-formedness does not depend on whose turn it is.
    pub proof fn lemma_wf_turn_change(self, t: Player)
        requires
            self.wf(),
        ensures
            (GameView { turn: t, ..self }).wf(),
    {
        let g = GameView { turn: t, ..self };
        assert forall|i: int| 0 <= i < g.history.len() implies coord_in_range(
            #[trigger] g.history[i],
        ) by {
            assert(coord_in_range(self.history[i]));
        }
        assert forall|i: int| 0 <= i < g.history.len() implies g.cell_of(
            #[trigger] g.history[i],
        ) is Occupied by {
            assert(self.cell_of(self.history[i]) is Occupied);
        }
        assert forall|x: usize, y: usize|
            x < 3 && y < 3 && #[trigger] g.cell(x, y) is Occupied implies g.history.contains(
            (x, y),
        ) by {
            assert(self.cell(x, y) is Occupied);
        }
    }

    /// The set of coordinates of occupied cells.
    pub open spec fn occupied_cells(self) -> Set<(usize, usize)> {
        Set::new(|c: (usize, usize)| coord_in_range(c) && self.cell_of(c) is Occupied)
    }

    /// The history records exactly one entry per occupied cell: its length
    /// always equals the number of occupied cells.
    pub proof fn lemma_history_counts_occupied(self)
        requires
            self.wf(),
        ensures
            self.occupied_cells().len() == self.history.len(),
    {
        assert(self.history.no_duplicates());
        assert(self.history.to_set() =~= self.occupied_cells()) by {
            assert forall|c: (usize, usize)| self.history.to_set().contains(c)
                implies self.occupied_cells().contains(c) by {
                let i = choose|i: int| 0 <= i < self.history.len() && self.history[i] == c;
                assert(coord_in_range(self.history[i]));
                assert(self.cell_of(self.history[i]) is Occupied);
            }
            assert forall|c: (usize, usize)| self.occupied_cells().contains(c)
                implies self.history.to_set().contains(c) by {
                assert(self.cell(c.0, c.1) is Occupied);
                assert(self.history.contains(c));
            }
        }
        self.history.unique_seq_to_set();
    }

    /// The initial state is well formed.
    pub proof fn lemma_init_wf()
        ensures
            GameView::init().wf(),
    {
        let g = GameView::init();
        assert forall|x: usize, y: usize|
            x < 3 && y < 3 && #[trigger] g.cell(x, y) is Occupied implies g.history.contains(
            (x, y),
        ) by {
            assert(g.grid[3 * y + x] == Cell::Empty);
        }
    }
}

/// The authoritative game state: the board, the player to move, the move
/// history and the recorded winning line. It is mutated only through
/// [`Game::make_move`] and [`Game::reset`] (and, for simulations, through
/// [`Game::switch_player`] and [`Game::check_winner`], which `make_move`
/// composes).
pub struct Game {
    board: Vec<Cell>,
    current_player: Player,
    moves: Vec<(usize, usize)>,
    winning_line: Option<usize>,
}

impl View for Game {
    type V = GameView;

    closed spec fn view(&self) -> GameView {
        GameView {
            grid: self.board@,
            turn: self.current_player,
            history: self.moves@,
            outcome: match self.winning_line {
                Some(l) => Some(l as int),
                None => None,
            },
        }
    }
}

/// A fresh nine-cell empty board.
fn empty_board() -> (b: Vec<Cell>)
    ensures
        b@ =~= GameView::init().grid,
{
    let mut b: Vec<Cell> = Vec::new();
    let mut i: usize = 0;
    while i < 9
        invariant
            i <= 9,
            b@.len() == i,
            forall|j: int| 0 <= j < i ==> b@[j] == Cell::Empty,
        decreases 9 - i,
    {
        b.push(Cell::Empty);
        i = i + 1;
    }
    b
}

/// An element-by-element copy of a vector of plain values.
fn copy_vec<T: Copy>(src: &Vec<T>) -> (r: Vec<T>)
    ensures
        r@ == src@,
{
    let mut r: Vec<T> = Vec::new();
    let mut i: usize = 0;
    while i < src.len()
        invariant
            i <= src@.len(),
            r@ =~= src@.subrange(0, i as int),
        decreases src@.len() - i,
    {
        r.push(src[i]);
        i = i + 1;
    }
    proof {
        assert(r@ =~= src@);
    }
    r
}

impl Clone for Game {
    /// An independent copy with the same state, for the advisor's simulations.
    fn clone(&self) -> (r: Game)
        ensures
            r@ == self@,
    {
        Game {
            board: copy_vec(&self.board),
            current_player: self.current_player,
            moves: copy_vec(&self.moves),
            winning_line: self.winning_line,
        }
    }
}

impl Game {
    /// A new game: empty board, player X to move, empty history, no winning
    /// line.
    pub fn new() -> (g: Game)
        ensures
            g@ == GameView::init(),
            g@.wf(),
    {
        let g = Game {
            board: empty_board(),
            current_player: Player::X,
            moves: Vec::new(),
            winning_line: None,
        };
        proof {
            assert(g@ =~= GameView::init());
            GameView::lemma_init_wf();
        }
        g
    }

    /// Restores the initial state: empty board, player X to move, empty
    /// history, no winning line — regardless of the prior state.
    pub fn reset(&mut self)
        ensures
            final(self)@ == GameView::init(),
            final(self)@.wf(),
    {
        self.board = empty_board();
        self.moves.clear();
        self.winning_line = None;
        self.current_player = Player::X;
        proof {
            assert(self@ =~= GameView::init());
            GameView::lemma_init_wf();
        }
    }

    /// Passes the turn to the other player.
    pub fn switch_player(&mut self)
        ensures
            final(self)@ == (GameView { turn: old(self)@.turn.other(), ..old(self)@ }),
            old(self)@.wf() ==> final(self)@.wf(),
    {
        self.current_player = match self.current_player {
            Player::X => Player::O,
            Player::O => Player::X,
        };
        proof {
            if old(self)@.wf() {
                old(self)@.lemma_wf_turn_change(self.current_player);
                assert(self@ =~= (GameView { turn: old(self)@.turn.other(), ..old(self)@ }));
            }
        }
    }

    /// The game is over exactly when a winning line is recorded.
    pub fn is_over(&self) -> (r: bool)
        ensures
            r == self@.is_over(),
    {
        self.winning_line.is_some()
    }

    /// The player about to move (after a win: the winner).
    pub fn get_current_player(&self) -> (r: Player)
        ensures
            r == self@.turn,
    {
        self.current_player
    }

    /// The cell at coordinates `(x, y)`.
    pub fn get_board_cell(&self, x: usize, y: usize) -> (r: Cell)
        requires
            self@.grid_ok(),
            x < 3,
            y < 3,
        ensures
            r == self@.cell(x, y),
    {
        self.board[3 * y + x]
    }

    /// Attempts to place the current player's mark at `(x, y)`.
    ///
    /// A move is silently rejected — the state stays unchanged — when the
    /// game is already over, the coordinates are out of range, or the target
    /// cell is occupied. An accepted move places the mark, appends the
    /// coordinates to the history, evicts the oldest mark if more than six
    /// are now on the board, records the first completed line (if any), and
    /// passes the turn unless the move just ended the game.
    pub fn make_move(&mut self, x: usize, y: usize)
        requires
            old(self)@.wf(),
        ensures
            final(self)@ == old(self)@.step(x, y),
            final(self)@.wf(),
            final(self)@.history.len() <= 6,
            !old(self)@.move_accepted(x, y) ==> *final(self) == *old(self),
    {
        proof {
            old(self)@.lemma_step_preserves_wf(x, y);
        }
        if x >= 3 || y >= 3 {
            return;
        }
        if self.is_over() {
            return;
        }
        let target = self.get_board_cell(x, y);
        if target != Cell::Empty {
            return;
        }

        // Place the mark and record the move.
        let idx: usize = 3 * y + x;
        self.board.set(idx, Cell::Occupied(self.current_player));
        self.moves.push((x, y));
        proof {
            assert(self@ =~= old(self)@.place(x, y));
        }

        // Vanish rule: with more than six marks recorded, the oldest leaves.
        if self.moves.len() > 6 {
            let evicted = self.moves.remove(0);
            proof {
                assert(evicted == old(self)@.history[0]);
                assert(coord_in_range(evicted));
            }
            let evicted_idx: usize = 3 * evicted.1 + evicted.0;
            self.board.set(evicted_idx, Cell::Empty);
        }
        let ghost placed = old(self)@.place(x, y).vanish();
        proof {
            assert(self@ =~= placed);
        }

        // Record the first completed line, if any.
        self.check_winner();
        proof {
            assert(self@ =~= (GameView { outcome: placed.first_complete_line(), ..placed }));
        }

        // Pass the turn unless the move just ended the game.
        if !self.is_over() {
            self.switch_player();
        }
        proof {
            assert(self@ =~= old(self)@.step(x, y));
        }
    }

    /// Whether all three cells of line `l` hold marks of one player.
    fn line_complete_at(&self, l: usize) -> (r: bool)
        requires
            self@.grid_ok(),
            l < 8,
        ensures
            r == self@.line_complete(l as int),
    {
        let c0 = line_cell(l, 0);
        let c1 = line_cell(l, 1);
        let c2 = line_cell(l, 2);
        let s0 = self.get_board_cell(c0.0, c0.1);
        let s1 = self.get_board_cell(c1.0, c1.1);
        let s2 = self.get_board_cell(c2.0, c2.1);
        match (s0, s1, s2) {
            (Cell::Occupied(p0), Cell::Occupied(p1), Cell::Occupied(p2)) => p0 == p1 && p1 == p2,
            _ => false,
        }
    }

    /// The index of the first completed line, scanning rows, then columns,
    /// then diagonals.
    fn first_complete_line_idx(&self) -> (r: Option<usize>)
        requires
            self@.grid_ok(),
        ensures
            match r {
                Some(l) => l < 8 && self@.first_complete_line() == Some(l as int),
                None => self@.first_complete_line() is None,
            },
    {
        let mut l: usize = 0;
        while l < 8
            invariant
                l <= 8,
                self@.grid_ok(),
                self@.first_complete_from(0) == self@.first_complete_from(l as int),
            decreases 8 - l,
        {
            if self.line_complete_at(l) {
                return Some(l);
            }
            l = l + 1;
        }
        None
    }

    /// Scans the eight lines in enumeration order and records the first
    /// completed one as the winning line; records none when no line is
    /// completed.
    pub fn check_winner(&mut self)
        requires
            old(self)@.grid_ok(),
        ensures
            final(self)@ == (GameView {
                outcome: old(self)@.first_complete_line(),
                ..old(self)@
            }),
            final(self)@.outcome_ok(),
    {
        let r = self.first_complete_line_idx();
        self.winning_line = r;
        proof {
            old(self)@.lemma_first_complete_line_spec();
            assert(self@ =~= (GameView {
                outcome: old(self)@.first_complete_line(),
                ..old(self)@
            }));
        }
    }

    /// The recorded winning line, as its three cell coordinates, if the game
    /// is over.
    pub fn get_winning_line(&self) -> (r: Option<[(usize, usize); 3]>)
        requires
            self@.outcome_ok(),
        ensures
            match (r, self@.outcome) {
                (Some(a), Some(l)) => a@ =~= lines_table()[l],
                (None, None) => true,
                _ => false,
            },
    {
        match self.winning_line {
            Some(l) => {
                let a = [line_cell(l, 0), line_cell(l, 1), line_cell(l, 2)];
                proof {
                    assert(a@ =~= lines_table()[l as int]);
                }
                Some(a)
            },
            None => None,
        }
    }
}

/// If, immediately after a move, three cells of some fixed line hold marks of
/// one player, the game is over and the recorded winning line is the first
/// completed line in enumeration order (rows, then columns, then diagonals).
pub proof fn lemma_win_detected(g: GameView, x: usize, y: usize, l: int, p: Player)
    requires
        g.move_accepted(x, y),
        0 <= l < 8,
        g.step(x, y).line_won_by(l, p),
    ensures
        g.step(x, y).is_over(),
        ({
            &&& g.step(x, y).outcome matches Some(w)
            &&& 0 <= w <= l
            &&& g.step(x, y).line_complete(w)
            &&& forall|j: int| 0 <= j < w ==> !g.step(x, y).line_complete(j)
        }),
{
    let placed = g.place(x, y).vanish();
    let f = g.step(x, y);
    assert(placed.line_complete(l));
    placed.lemma_first_complete_line_spec();
    assert(placed.first_complete_line() is Some);
    assert(f.outcome == placed.first_complete_line());
    let w = placed.first_complete_line()->0;
    assert(w <= l) by {
        if w > l {
            assert(!placed.line_complete(l));
        }
    }
    assert(f.grid == placed.grid);
    assert(f.line_complete(w));
    assert forall|j: int| 0 <= j < w implies !f.line_complete(j) by {
        assert(!placed.line_complete(j));
    }
}

/// Turn alternation: an accepted move that does not end the game passes the
/// turn to the opponent; a game-ending move leaves the winner as the current
/// player.
pub proof fn lemma_turn_alternates(g: GameView, x: usize, y: usize)
    requires
        g.move_accepted(x, y),
    ensures
        !g.step(x, y).is_over() ==> g.step(x, y).turn == g.turn.other(),
        g.step(x, y).is_over() ==> g.step(x, y).turn == g.turn,
{
}

/// Across two successive accepted moves, neither of which ends the game, the
/// turn comes back to the first mover.
pub proof fn lemma_turn_round_trip(g: GameView, x1: usize, y1: usize, x2: usize, y2: usize)
    requires
        g.move_accepted(x1, y1),
        !g.step(x1, y1).is_over(),
        g.step(x1, y1).move_accepted(x2, y2),
        !g.step(x1, y1).step(x2, y2).is_over(),
    ensures
        g.step(x1, y1).turn == g.turn.other(),
        g.step(x1, y1).step(x2, y2).turn == g.turn,
{
}

/// Vanish round trip: an accepted seventh mark evicts exactly the oldest
/// recorded coordinate, whose cell becomes empty, and the history keeps six
/// entries, now ending with the new mark.
pub proof fn lemma_vanish_evicts_oldest(g: GameView, x: usize, y: usize)
    requires
        g.wf(),
        g.move_accepted(x, y),
        g.history.len() == 6,
    ensures
        g.step(x, y).history =~= g.history.drop_first().push((x, y)),
        g.step(x, y).history.len() == 6,
        g.step(x, y).cell_of(g.history[0]) == Cell::Empty,
        g.step(x, y).cell(x, y) == Cell::Occupied(g.turn),
{
    let e = g.history[0];
    assert(g.cell_of(e) is Occupied);
    if 3 * e.1 + e.0 == 3 * y + x {
        lemma_index_injective(e, (x, y));
        assert(false);
    }
}

/// The board can never fill: a well-formed state has at most six marks on
/// nine cells, so some cell is always empty. A draw is therefore structurally
/// impossible; the only terminal condition is a completed line.
pub proof fn lemma_board_never_full(g: GameView)
    requires
        g.wf(),
    ensures
        exists|c: (usize, usize)| coord_in_range(c) && g.cell_of(c) == Cell::Empty,
{
    broadcast use vstd::seq_lib::seq_to_set_is_finite;

    let all: Seq<(usize, usize)> = seq![
        (0usize, 0usize),
        (1usize, 0usize),
        (2usize, 0usize),
        (0usize, 1usize),
        (1usize, 1usize),
        (2usize, 1usize),
        (0usize, 2usize),
        (1usize, 2usize),
        (2usize, 2usize),
    ];
    if !(exists|c: (usize, usize)| coord_in_range(c) && g.cell_of(c) == Cell::Empty) {
        assert forall|c: (usize, usize)| all.to_set().contains(c) implies g.history.to_set()
            .contains(c) by {
            let i = choose|i: int| 0 <= i < all.len() && all[i] == c;
            assert(coord_in_range(c));
            assert(g.cell_of(c) != Cell::Empty);
            assert(g.cell(c.0, c.1) is Occupied);
            assert(g.history.contains(c));
        }
        assert(all.to_set().subset_of(g.history.to_set()));
        vstd::set_lib::lemma_len_subset(all.to_set(), g.history.to_set());
        assert(all.no_duplicates());
        all.unique_seq_to_set();
        g.history.lemma_cardinality_of_set();
        assert(false);
    }
}

/// A move below six recorded marks evicts nothing: the history only grows by
/// the new mark and no cell is cleared.
pub proof fn lemma_no_vanish_below_seven(g: GameView, x: usize, y: usize)
    requires
        g.wf(),
        g.move_accepted(x, y),
        g.history.len() < 6,
    ensures
        g.step(x, y).history =~= g.history.push((x, y)),
        g.step(x, y).grid =~= g.grid.update(3 * y + x, Cell::Occupied(g.turn)),
{
}

} // verus!
