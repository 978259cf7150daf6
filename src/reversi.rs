use vstd::prelude::*;

use crate::game::Mcts;

verus! {

broadcast use vstd::array::group_array_axioms;

/// Number of rows, and of columns, of the board.
pub const BOARDSIZE: usize = 8;

/// Whether row `r` and column `c` lie on the board.
pub open spec fn on_board(r: int, c: int) -> bool {
    0 <= r < BOARDSIZE && 0 <= c < BOARDSIZE
}

/// The coordinate `k` steps from `r` in direction `d` (-1, 0 or 1).
pub open spec fn ray(r: int, k: int, d: int) -> int {
    if d > 0 {
        r + k
    } else if d < 0 {
        r - k
    } else {
        r
    }
}

/// The turn of `p` on the `k`-th square, counted column by column.
pub open spec fn turn_at(p: Player, k: int) -> Turn {
    Turn { player: p, pos: Position((k % 8) as usize, (k / 8) as usize) }
}

/// What a square adds to the piece balance: one for black, minus one for white.
pub open spec fn weight(q: Square) -> int {
    match q {
        Square::Piece(Player::Black) => 1,
        Square::Piece(Player::White) => -1,
        Square::Empty => 0,
    }
}

/// Black's pieces less white's among the first `n` squares of `s`.
pub open spec fn balance(s: Seq<Square>, n: nat) -> int
    decreases n,
{
    if n == 0 || n > s.len() {
        0
    } else {
        balance(s, (n - 1) as nat) + weight(s[n - 1])
    }
}

/// The balance of `n` squares is at most `n` either way.
proof fn lemma_balance_bound(s: Seq<Square>, n: nat)
    requires
        n <= s.len(),
    ensures
        -(n as int) <= balance(s, n) <= n,
    decreases n,
{
    if n > 0 {
        lemma_balance_bound(s, (n - 1) as nat);
    }
}

/// The number of empty squares among the first `n` of `s`.
pub open spec fn empties(s: Seq<Square>, n: nat) -> nat
    decreases n,
{
    if n == 0 || n > s.len() {
        0
    } else {
        empties(s, (n - 1) as nat) + if s[n - 1] is Empty {
            1nat
        } else {
            0nat
        }
    }
}

/// `after` differs from `before` only by filling the empty square `i` with a
/// piece and turning pieces of the other player into pieces of `p`.
pub open spec fn placed_and_flipped(before: Seq<Square>, after: Seq<Square>, i: int, p: Player) -> bool {
    &&& after.len() == before.len()
    &&& 0 <= i < before.len()
    &&& before[i] == Square::Empty
    &&& after[i] == Square::Piece(p)
    &&& forall|k: int|
        0 <= k < before.len() && k != i && #[trigger] after[k] != before[k] ==> before[k]
            == Square::Piece(p.other()) && after[k] == Square::Piece(p)
}

/// Filling one empty square, and flipping pieces, leaves one empty square fewer.
proof fn lemma_empties_fill(before: Seq<Square>, after: Seq<Square>, i: int, p: Player, n: nat)
    requires
        placed_and_flipped(before, after, i, p),
        n <= before.len(),
    ensures
        empties(after, n) + (if i < n { 1int } else { 0int }) == empties(before, n),
    decreases n,
{
    if n > 0 {
        lemma_empties_fill(before, after, i, p, (n - 1) as nat);
        let k = n - 1;
        if k != i && after[k] != before[k] {
        }
    }
}

/// Reversi game.
#[derive(Clone, Copy, Debug, PartialEq, Eq)]
pub struct Reversi {
    pub board: Board,
}

impl Reversi {
    /// Create a new Reversi game.
    pub fn new() -> (r: Self)
        ensures
            r.wf(),
            r.board.side() == Player::Black,
            r.board.cells() == Board::new_cells(),
    {
        Self::default()
    }
}

impl Default for Reversi {
    fn default() -> (r: Self)
        ensures
            r.wf(),
            r.board.side() == Player::Black,
            r.board.cells() == Board::new_cells(),
    {
        Self { board: Board::new() }
    }
}

impl Mcts for Reversi {
    type Player = Player;
    type Turn = Turn;

    open spec fn wf(&self) -> bool {
        self.board.wf()
    }

    open spec fn mover(&self) -> Player {
        self.board.side()
    }

    open spec fn legal_turns(&self) -> Seq<Turn> {
        self.board.legal_turns_of(self.board.side())
    }

    open spec fn is_over(&self) -> bool {
        self.board.game_over()
    }

    open spec fn moves_left(&self) -> nat {
        empties(self.board.cells(), 64)
    }

    open spec fn outcome(&self) -> Option<Player> {
        self.board.winner_of()
    }

    open spec fn played(&self, turn: Turn, next: Self) -> bool {
        self.board.played(turn, next.board)
    }

    fn same_player(a: &Player, b: &Player) -> (r: bool) {
        match (a, b) {
            (Player::Black, Player::Black) => true,
            (Player::White, Player::White) => true,
            _ => false,
        }
    }

    fn snapshot(&self) -> (r: Self) {
        Reversi { board: self.board.snapshot() }
    }

    /// Get the current player.
    fn player(&self) -> (r: Player) {
        self.board.player
    }

    /// Get all legal turns.
    fn turns(&self) -> (r: Vec<Turn>) {
        proof {
            self.board.lemma_legal_upto(self.board.side(), 64);
        }
        self.board.turns()
    }

    /// Play a turn of the game; an illegal turn changes nothing.
    fn play(&mut self, turn: Turn) {
        proof {
            self.board.lemma_legal_upto(self.board.side(), 64);
        }
        self.board.play(&turn);
    }

    /// Check if the game is over.
    fn over(&self) -> (r: bool) {
        self.board.over()
    }

    /// Get the winner of the game.
    ///
    /// Returns `None` if the game is still ongoing.
    fn winner(&self) -> (r: Option<Player>) {
        self.board.winner()
    }
}

/// The place of direction (`dx`, `dy`) in the order in which a turn's
/// directions are visited.
pub open spec fn dir_index(dx: int, dy: int) -> int {
    (dx + 1) * 3 + (dy + 1)
}

/// Two rays from one square meet at positive distances only along the same
/// direction, at the same distance.
pub proof fn lemma_rays_apart(r: int, c: int, dx: int, dy: int, i: int, ex: int, ey: int, j: int)
    requires
        -1 <= dx <= 1,
        -1 <= dy <= 1,
        -1 <= ex <= 1,
        -1 <= ey <= 1,
        dx != 0 || dy != 0,
        1 <= i,
        1 <= j,
        ray(r, i, dx) == ray(r, j, ex),
        ray(c, i, dy) == ray(c, j, ey),
    ensures
        dx == ex && dy == ey && i == j,
{
}

/// A player of the game.
#[derive(Clone, Copy, Debug, PartialEq, Eq, Structural)]
pub enum Player {
    Black,
    White,
}

impl Player {
    /// The other player.
    pub open spec fn other(self) -> Player {
        match self {
            Player::Black => Player::White,
            Player::White => Player::Black,
        }
    }

    /// Get the opponent of a player.
    pub fn opponent(&self) -> (r: Player)
        ensures
            r == self.other(),
    {
        match self {
            Player::Black => Player::White,
            Player::White => Player::Black,
        }
    }

    /// Switch player to opponent.
    pub fn switch(&mut self)
        ensures
            *final(self) == old(self).other(),
    {
        *self = self.opponent();
    }
}

/// A square of the board.
#[derive(Clone, Copy, Debug, PartialEq, Eq, Structural)]
pub enum Square {
    Piece(Player),
    Empty,
}

impl Square {
    /// Check if a square is occupied.
    pub fn occupied(&self) -> (r: bool)
        ensures
            r == (*self is Piece),
    {
        match self {
            Square::Piece(_) => true,
            Square::Empty => false,
        }
    }
}

/// A position on the board: row, then column.
#[derive(Clone, Copy, Debug, PartialEq, Eq, Structural)]
pub struct Position(pub usize, pub usize);

/// A board position to play a piece.
#[derive(Clone, Copy, Debug, PartialEq, Eq, Structural)]
pub struct Turn {
    pub player: Player,
    pub pos: Position,
}

impl Turn {
    /// Create a new Turn.
    pub fn new(player: Player, pos: Position) -> (r: Self)
        ensures
            r.player == player,
            r.pos == pos,
    {
        Self { player, pos }
    }
}

/// Board on which the game is played: the squares row by row, and the player
/// to move.
#[derive(Clone, Copy, Debug, PartialEq, Eq)]
pub struct Board {
    squares: [Square; 64],
    pub player: Player,
}

impl Board {
    /// The board holds one square for each row and column.
    pub closed spec fn wf(&self) -> bool {
        self.squares@.len() == BOARDSIZE * BOARDSIZE
    }

    /// The player to move.
    pub closed spec fn side(&self) -> Player {
        self.player
    }

    /// The squares, row by row.
    pub closed spec fn cells(&self) -> Seq<Square> {
        self.squares@
    }

    /// The square at row `r` and column `c`, `None` off the board.
    pub closed spec fn at(&self, r: int, c: int) -> Option<Square> {
        if on_board(r, c) {
            Some(self.squares@[r * 8 + c])
        } else {
            None
        }
    }

    /// The squares of a new board: four pieces in the centre.
    pub closed spec fn new_cells() -> Seq<Square> {
        Seq::new(
            64,
            |k: int|
                if k == 27 || k == 36 {
                    Square::Piece(Player::White)
                } else if k == 28 || k == 35 {
                    Square::Piece(Player::Black)
                } else {
                    Square::Empty
                },
        )
    }

    /// A copy of the board, equal to it.
    pub fn snapshot(&self) -> (r: Self)
        ensures
            r == *self,
    {
        Board { squares: self.squares, player: self.player }
    }

    /// Create a new Board: four pieces in the centre, black to move.
    pub fn new() -> (r: Self)
        ensures
            r.wf(),
            r.side() == Player::Black,
            r.cells() == Board::new_cells(),
            forall|i: int, j: int|
                on_board(i, j) ==> #[trigger] r.at(i, j) == Some(
                    if (i == 3 && j == 3) || (i == 4 && j == 4) {
                        Square::Piece(Player::White)
                    } else if (i == 3 && j == 4) || (i == 4 && j == 3) {
                        Square::Piece(Player::Black)
                    } else {
                        Square::Empty
                    },
                ),
    {
        let mut squares: [Square; 64] = [Square::Empty; 64];
        let mut k: usize = 0;
        while k < BOARDSIZE * BOARDSIZE
            invariant
                k <= BOARDSIZE * BOARDSIZE,
                forall|i: int| 0 <= i < k ==> squares@[i] == Square::Empty,
            decreases BOARDSIZE * BOARDSIZE - k,
        {
            squares[k] = Square::Empty;
            k = k + 1;
        }
        let half = BOARDSIZE / 2;
        squares[(half - 1) * BOARDSIZE + half - 1] = Square::Piece(Player::White);
        squares[(half - 1) * BOARDSIZE + half] = Square::Piece(Player::Black);
        squares[half * BOARDSIZE + half - 1] = Square::Piece(Player::Black);
        squares[half * BOARDSIZE + half] = Square::Piece(Player::White);
        assert(squares@ =~= Board::new_cells());
        Self { squares, player: Player::Black }
    }

    /// Get the board height.
    pub fn height(&self) -> (r: usize)
        ensures
            r == BOARDSIZE,
    {
        BOARDSIZE
    }

    /// Get the board width.
    pub fn width(&self) -> (r: usize)
        ensures
            r == BOARDSIZE,
    {
        BOARDSIZE
    }

    /// Borrow the square at a position, `None` off the board.
    pub fn get(&self, pos: Position) -> (r: Option<&Square>)
        requires
            self.wf(),
        ensures
            match r {
                Some(s) => self.at(pos.0 as int, pos.1 as int) == Some(*s),
                None => self.at(pos.0 as int, pos.1 as int) is None,
            },
    {
        if pos.0 < BOARDSIZE && pos.1 < BOARDSIZE {
            Some(&self.squares[pos.0 * BOARDSIZE + pos.1])
        } else {
            None
        }
    }

    /// Borrow the square at a position, which must be on the board.
    pub fn index(&self, pos: Position) -> (r: &Square)
        requires
            self.wf(),
            on_board(pos.0 as int, pos.1 as int),
        ensures
            self.at(pos.0 as int, pos.1 as int) == Some(*r),
    {
        &self.squares[pos.0 * BOARDSIZE + pos.1]
    }

    /// Mutably borrow the square at a position, `None` off the board.
    pub fn get_mut(&mut self, pos: Position) -> (r: Option<&mut Square>)
        requires
            old(self).wf(),
        ensures
            final(self).wf(),
            final(self).side() == old(self).side(),
            match r {
                Some(s) => on_board(pos.0 as int, pos.1 as int) && old(self).at(
                    pos.0 as int,
                    pos.1 as int,
                ) == Some(*s) && final(self).cells() == old(self).cells().update(
                    pos.0 * 8 + pos.1,
                    *final(s),
                ),
                None => !on_board(pos.0 as int, pos.1 as int) && *final(self) == *old(self),
            },
    {
        if pos.0 < BOARDSIZE && pos.1 < BOARDSIZE {
            Some(&mut self.squares[pos.0 * BOARDSIZE + pos.1])
        } else {
            None
        }
    }

    /// Check if a position is on the board.
    pub fn in_bounds(&self, pos: Position) -> (r: bool)
        requires
            self.wf(),
        ensures
            r == on_board(pos.0 as int, pos.1 as int),
    {
        self.get(pos).is_some()
    }

    /// Check if a position on the board is occupied.
    pub fn is_occupied(&self, pos: Position) -> (r: bool)
        requires
            self.wf(),
            on_board(pos.0 as int, pos.1 as int),
        ensures
            r == (self.at(pos.0 as int, pos.1 as int) != Some(Square::Empty)),
    {
        self.index(pos).occupied()
    }

    /// Walking from step `k` along direction (`dx`, `dy`) from the turn's
    /// position, a piece of the turn's player is found before the edge.
    pub closed spec fn scan(&self, t: Turn, dx: int, dy: int, k: int) -> bool
        decreases BOARDSIZE - k,
    {
        if k >= BOARDSIZE || k < 0 {
            false
        } else {
            match self.at(ray(t.pos.0 as int, k, dx), ray(t.pos.1 as int, k, dy)) {
                None => false,
                Some(Square::Piece(p)) => if p == t.player {
                    true
                } else {
                    self.scan(t, dx, dy, k + 1)
                },
                Some(Square::Empty) => self.scan(t, dx, dy, k + 1),
            }
        }
    }

    /// The turn captures in direction (`dx`, `dy`): the adjacent square holds
    /// an opponent's piece, and a piece of the player lies further on.
    pub closed spec fn legal_dir(&self, t: Turn, dx: int, dy: int) -> bool {
        self.at(ray(t.pos.0 as int, 1, dx), ray(t.pos.1 as int, 1, dy)) == Some(
            Square::Piece(t.player.other()),
        ) && self.scan(t, dx, dy, 2)
    }

    /// The turn is legal: on the board, on an empty square, and capturing in
    /// at least one direction.
    pub closed spec fn legal(&self, t: Turn) -> bool {
        &&& on_board(t.pos.0 as int, t.pos.1 as int)
        &&& self.at(t.pos.0 as int, t.pos.1 as int) == Some(Square::Empty)
        &&& exists|dx: int, dy: int|
            -1 <= dx <= 1 && -1 <= dy <= 1 && #[trigger] self.legal_dir(t, dx, dy)
    }

    /// The position `k` steps from (`r`, `c`) in direction (`dx`, `dy`),
    /// `None` off the board.
    fn position_along(&self, r: usize, c: usize, k: usize, dx: isize, dy: isize) -> (q: Option<Position>)
        requires
            r < BOARDSIZE,
            c < BOARDSIZE,
            k < BOARDSIZE,
            -1 <= dx <= 1,
            -1 <= dy <= 1,
        ensures
            match q {
                Some(p) => on_board(p.0 as int, p.1 as int) && p.0 == ray(r as int, k as int, dx as int)
                    && p.1 == ray(c as int, k as int, dy as int),
                None => !on_board(ray(r as int, k as int, dx as int), ray(c as int, k as int, dy as int)),
            },
    {
        let x: isize = if dx > 0 {
            r as isize + k as isize
        } else if dx < 0 {
            r as isize - k as isize
        } else {
            r as isize
        };
        let y: isize = if dy > 0 {
            c as isize + k as isize
        } else if dy < 0 {
            c as isize - k as isize
        } else {
            c as isize
        };
        if x < 0 || y < 0 || x >= BOARDSIZE as isize || y >= BOARDSIZE as isize {
            None
        } else {
            Some(Position(x as usize, y as usize))
        }
    }

    /// The square `k` steps from (`r`, `c`) in direction (`dx`, `dy`).
    fn square_along(&self, r: usize, c: usize, k: usize, dx: isize, dy: isize) -> (q: Option<Square>)
        requires
            self.wf(),
            r < BOARDSIZE,
            c < BOARDSIZE,
            k < BOARDSIZE,
            -1 <= dx <= 1,
            -1 <= dy <= 1,
        ensures
            q == self.at(ray(r as int, k as int, dx as int), ray(c as int, k as int, dy as int)),
    {
        match self.position_along(r, c, k, dx, dy) {
            Some(p) => Some(*self.index(p)),
            None => None,
        }
    }

    /// Check if a turn is legal in a direction.
    pub fn is_legal_in_direction(&self, turn: &Turn, dir: (isize, isize)) -> (r: bool)
        requires
            self.wf(),
            on_board(turn.pos.0 as int, turn.pos.1 as int),
            -1 <= dir.0 <= 1,
            -1 <= dir.1 <= 1,
        ensures
            r == self.legal_dir(*turn, dir.0 as int, dir.1 as int),
    {
        let (dx, dy) = dir;
        let Position(row, col) = turn.pos;
        let opponent = turn.player.opponent();

        // Check if adjacent square belongs to the opponent
        match self.square_along(row, col, 1, dx, dy) {
            Some(Square::Piece(p)) => {
                if p != opponent {
                    return false;
                }
            },
            _ => {
                return false;
            },
        }

        // Search for the player's piece as a delimiter
        let mut i: usize = 2;
        while i < BOARDSIZE
            invariant
                2 <= i <= BOARDSIZE,
                self.wf(),
                row < BOARDSIZE,
                col < BOARDSIZE,
                -1 <= dx <= 1,
                -1 <= dy <= 1,
                turn.pos == Position(row, col),
                dx == dir.0,
                dy == dir.1,
                self.legal_dir(*turn, dx as int, dy as int) == self.scan(*turn, dx as int, dy as int, i as int),
            decreases BOARDSIZE - i,
        {
            let q = self.square_along(row, col, i, dx, dy);
            match q {
                Some(Square::Piece(p)) => {
                    if p == turn.player {
                        return true;
                    }
                },
                Some(Square::Empty) => {},
                None => {
                    return false;
                },
            }
            i = i + 1;
        }
        false
    }

    /// Check if a turn is legal.
    pub fn is_legal(&self, turn: &Turn) -> (r: bool)
        requires
            self.wf(),
        ensures
            r == self.legal(*turn),
    {
        // Perform bounds check
        if !self.in_bounds(turn.pos) {
            return false;
        }

        // Occupied spaces are never legal
        if self.is_occupied(turn.pos) {
            return false;
        }

        // Check legality in each direction
        let mut i: isize = -1;
        while i <= 1
            invariant
                -1 <= i <= 2,
                self.wf(),
                on_board(turn.pos.0 as int, turn.pos.1 as int),
                self.at(turn.pos.0 as int, turn.pos.1 as int) == Some(Square::Empty),
                forall|dx: int, dy: int|
                    -1 <= dx < i && -1 <= dy <= 1 ==> !#[trigger] self.legal_dir(*turn, dx, dy),
            decreases 2 - i,
        {
            let mut j: isize = -1;
            while j <= 1
                invariant
                    -1 <= i <= 1,
                    -1 <= j <= 2,
                    self.wf(),
                    on_board(turn.pos.0 as int, turn.pos.1 as int),
                    self.at(turn.pos.0 as int, turn.pos.1 as int) == Some(Square::Empty),
                    forall|dx: int, dy: int|
                        -1 <= dx < i && -1 <= dy <= 1 ==> !#[trigger] self.legal_dir(*turn, dx, dy),
                    forall|dy: int| -1 <= dy < j ==> !#[trigger] self.legal_dir(*turn, i as int, dy),
                decreases 2 - j,
            {
                if self.is_legal_in_direction(turn, (i, j)) {
                    assert(self.legal_dir(*turn, i as int, j as int));
                    return true;
                }
                j = j + 1;
            }
            i = i + 1;
        }
        false
    }

    /// The legal turns of `p` among the first `n` squares, taken column by
    /// column and, within a column, row by row.
    pub closed spec fn legal_upto(&self, p: Player, n: nat) -> Seq<Turn>
        decreases n,
    {
        if n == 0 {
            Seq::empty()
        } else {
            let t = turn_at(p, n - 1);
            if self.legal(t) {
                self.legal_upto(p, (n - 1) as nat).push(t)
            } else {
                self.legal_upto(p, (n - 1) as nat)
            }
        }
    }

    /// All legal turns of `p`, column by column, then row by row.
    pub closed spec fn legal_turns_of(&self, p: Player) -> Seq<Turn> {
        self.legal_upto(p, (BOARDSIZE * BOARDSIZE) as nat)
    }

    /// `p` has a legal turn somewhere on the board.
    pub closed spec fn has_move(&self, p: Player) -> bool {
        exists|k: int| 0 <= k < BOARDSIZE * BOARDSIZE && #[trigger] self.legal(turn_at(p, k))
    }

    /// Neither player has a legal turn.
    pub closed spec fn game_over(&self) -> bool {
        !self.has_move(self.player) && !self.has_move(self.player.other())
    }

    /// Every turn listed is legal, and the list is empty exactly when no
    /// square among the first `n` gives one.
    proof fn lemma_legal_upto(&self, p: Player, n: nat)
        requires
            n <= BOARDSIZE * BOARDSIZE,
        ensures
            forall|i: int|
                0 <= i < self.legal_upto(p, n).len() ==> #[trigger] self.legal(
                    self.legal_upto(p, n)[i],
                ),
            self.legal_upto(p, n).len() == 0 <==> forall|k: int|
                0 <= k < n ==> !#[trigger] self.legal(turn_at(p, k)),
        decreases n,
    {
        if n > 0 {
            self.lemma_legal_upto(p, (n - 1) as nat);
        }
    }

    /// The squares from 1 to `i` steps from the turn's position in direction
    /// (`dx`, `dy`) all hold pieces of the turn player's opponent.
    pub closed spec fn run(&self, t: Turn, dx: int, dy: int, i: int) -> bool {
        forall|j: int|
            1 <= j <= i ==> #[trigger] self.at(ray(t.pos.0 as int, j, dx), ray(t.pos.1 as int, j, dy))
                == Some(Square::Piece(t.player.other()))
    }

    /// The turn captures the square at row `r`, column `c` through one of
    /// the first `n` directions (counted by `dir_index`): the square lies `i`
    /// steps away in a direction in which the turn captures, and the squares
    /// up to it all hold the opponent's pieces.
    pub closed spec fn captured_within(&self, t: Turn, r: int, c: int, n: int) -> bool {
        exists|dx: int, dy: int, i: int|
            -1 <= dx <= 1 && -1 <= dy <= 1 && dir_index(dx, dy) < n && 1 <= i && r == ray(
                t.pos.0 as int,
                i,
                dx,
            ) && c == ray(t.pos.1 as int, i, dy) && self.legal_dir(t, dx, dy) && #[trigger] self.run(
                t,
                dx,
                dy,
                i,
            )
    }

    /// The turn captures the square at row `r`, column `c`: those are the
    /// pieces it flips.
    pub closed spec fn captures(&self, t: Turn, r: int, c: int) -> bool {
        self.captured_within(t, r, c, 9)
    }

    /// Every square holds one more piece of the run than the one before.
    proof fn lemma_run_prefix(&self, t: Turn, dx: int, dy: int, i: int, j: int)
        requires
            self.run(t, dx, dy, i),
            j <= i,
        ensures
            self.run(t, dx, dy, j),
    {
    }

    /// Boards that agree on every square of the ray in direction (`dx`, `dy`)
    /// agree on whether the turn captures in that direction.
    proof fn lemma_legal_dir_same_ray(&self, other: &Board, t: Turn, dx: int, dy: int)
        requires
            forall|j: int|
                1 <= j ==> #[trigger] self.at(ray(t.pos.0 as int, j, dx), ray(t.pos.1 as int, j, dy))
                    == other.at(ray(t.pos.0 as int, j, dx), ray(t.pos.1 as int, j, dy)),
        ensures
            self.legal_dir(t, dx, dy) == other.legal_dir(t, dx, dy),
    {
        self.lemma_scan_same_ray(other, t, dx, dy, 2);
        assert(self.at(ray(t.pos.0 as int, 1, dx), ray(t.pos.1 as int, 1, dy)) == other.at(
            ray(t.pos.0 as int, 1, dx),
            ray(t.pos.1 as int, 1, dy),
        ));
    }

    proof fn lemma_scan_same_ray(&self, other: &Board, t: Turn, dx: int, dy: int, k: int)
        requires
            k >= 1,
            forall|j: int|
                1 <= j ==> #[trigger] self.at(ray(t.pos.0 as int, j, dx), ray(t.pos.1 as int, j, dy))
                    == other.at(ray(t.pos.0 as int, j, dx), ray(t.pos.1 as int, j, dy)),
        ensures
            self.scan(t, dx, dy, k) == other.scan(t, dx, dy, k),
        decreases BOARDSIZE - k,
    {
        if k < BOARDSIZE {
            self.lemma_scan_same_ray(other, t, dx, dy, k + 1);
            assert(self.at(ray(t.pos.0 as int, k, dx), ray(t.pos.1 as int, k, dy)) == other.at(
                ray(t.pos.0 as int, k, dx),
                ray(t.pos.1 as int, k, dy),
            ));
        }
    }

    /// A direction in which the turn does not capture adds no captured square.
    proof fn lemma_within_skip(&self, t: Turn, r: int, c: int, dx: int, dy: int)
        requires
            -1 <= dx <= 1,
            -1 <= dy <= 1,
            !self.legal_dir(t, dx, dy),
        ensures
            self.captured_within(t, r, c, dir_index(dx, dy) + 1) == self.captured_within(
                t,
                r,
                c,
                dir_index(dx, dy),
            ),
    {
        if self.captured_within(t, r, c, dir_index(dx, dy) + 1) {
            let (ex, ey, i) = choose|ex: int, ey: int, i: int|
                -1 <= ex <= 1 && -1 <= ey <= 1 && dir_index(ex, ey) < dir_index(dx, dy) + 1 && 1 <= i
                    && r == ray(t.pos.0 as int, i, ex) && c == ray(t.pos.1 as int, i, ey)
                    && self.legal_dir(t, ex, ey) && #[trigger] self.run(t, ex, ey, i);
            assert(dir_index(ex, ey) != dir_index(dx, dy));
        }
    }

    /// A direction in which the turn captures, with a run of opponent pieces
    /// ending before step `i`, adds the squares of that run.
    proof fn lemma_within_next(&self, t: Turn, r: int, c: int, dx: int, dy: int, i: int)
        requires
            -1 <= dx <= 1,
            -1 <= dy <= 1,
            1 <= i,
            self.legal_dir(t, dx, dy),
            self.run(t, dx, dy, i - 1),
            !self.run(t, dx, dy, i),
        ensures
            self.captured_within(t, r, c, dir_index(dx, dy) + 1) == (self.captured_within(
                t,
                r,
                c,
                dir_index(dx, dy),
            ) || exists|j: int|
                1 <= j < i && r == ray(t.pos.0 as int, j, dx) && c == #[trigger] ray(
                    t.pos.1 as int,
                    j,
                    dy,
                )),
    {
        let n = dir_index(dx, dy);
        if self.captured_within(t, r, c, n + 1) && !self.captured_within(t, r, c, n) {
            let (ex, ey, k) = choose|ex: int, ey: int, k: int|
                -1 <= ex <= 1 && -1 <= ey <= 1 && dir_index(ex, ey) < n + 1 && 1 <= k && r == ray(
                    t.pos.0 as int,
                    k,
                    ex,
                ) && c == ray(t.pos.1 as int, k, ey) && self.legal_dir(t, ex, ey)
                    && #[trigger] self.run(t, ex, ey, k);
            assert(ex == dx && ey == dy);
            if k >= i {
                self.lemma_run_prefix(t, dx, dy, k, i);
            }
            assert(c == ray(t.pos.1 as int, k, dy));
        }
        if exists|j: int|
            1 <= j < i && r == ray(t.pos.0 as int, j, dx) && c == #[trigger] ray(t.pos.1 as int, j, dy)
        {
            let j = choose|j: int|
                1 <= j < i && r == ray(t.pos.0 as int, j, dx) && c == #[trigger] ray(
                    t.pos.1 as int,
                    j,
                    dy,
                );
            self.lemma_run_prefix(t, dx, dy, i - 1, j);
            assert(self.run(t, dx, dy, j));
        }
    }

    /// Legality depends on the squares alone, not on the player to move.
    proof fn lemma_legal_same_squares(&self, other: &Board, t: Turn)
        requires
            self.squares@ == other.squares@,
        ensures
            self.legal(t) == other.legal(t),
    {
        assert forall|dx: int, dy: int|
            #![trigger self.legal_dir(t, dx, dy)]
            #![trigger other.legal_dir(t, dx, dy)]
            self.legal_dir(t, dx, dy) == other.legal_dir(t, dx, dy) by {
            self.lemma_scan_same_squares(other, t, dx, dy, 2);
        }
    }

    proof fn lemma_scan_same_squares(&self, other: &Board, t: Turn, dx: int, dy: int, k: int)
        requires
            self.squares@ == other.squares@,
        ensures
            self.scan(t, dx, dy, k) == other.scan(t, dx, dy, k),
        decreases BOARDSIZE - k,
    {
        if 0 <= k < BOARDSIZE {
            self.lemma_scan_same_squares(other, t, dx, dy, k + 1);
        }
    }

    /// Get all legal turns for the current player.
    pub fn turns(&self) -> (r: Vec<Turn>)
        requires
            self.wf(),
        ensures
            r@ == self.legal_turns_of(self.side()),
    {
        let mut turns: Vec<Turn> = Vec::new();

        // Iterate through the entire board, column by column
        let mut i: usize = 0;
        while i < BOARDSIZE
            invariant
                i <= BOARDSIZE,
                self.wf(),
                turns@ == self.legal_upto(self.player, (i * BOARDSIZE) as nat),
            decreases BOARDSIZE - i,
        {
            let mut j: usize = 0;
            while j < BOARDSIZE
                invariant
                    i < BOARDSIZE,
                    j <= BOARDSIZE,
                    self.wf(),
                    turns@ == self.legal_upto(self.player, (i * BOARDSIZE + j) as nat),
                decreases BOARDSIZE - j,
            {
                let turn = Turn::new(self.player, Position(j, i));
                assert(turn == turn_at(self.player, i * BOARDSIZE + j));

                // Check if each turn would be legal
                if self.is_legal(&turn) {
                    turns.push(turn);
                }
                j = j + 1;
            }
            i = i + 1;
        }
        turns
    }

    /// Check if a player has a legal turn.
    pub fn has_turn(&self, player: Player) -> (r: bool)
        requires
            self.wf(),
        ensures
            r == self.has_move(player),
    {
        // Iterate through the entire board
        let mut i: usize = 0;
        while i < BOARDSIZE
            invariant
                i <= BOARDSIZE,
                self.wf(),
                forall|k: int| 0 <= k < i * BOARDSIZE ==> !#[trigger] self.legal(turn_at(player, k)),
            decreases BOARDSIZE - i,
        {
            let mut j: usize = 0;
            while j < BOARDSIZE
                invariant
                    i < BOARDSIZE,
                    j <= BOARDSIZE,
                    self.wf(),
                    forall|k: int|
                        0 <= k < i * BOARDSIZE + j ==> !#[trigger] self.legal(turn_at(player, k)),
                decreases BOARDSIZE - j,
            {
                let turn = Turn::new(player, Position(j, i));
                assert(turn == turn_at(player, i * BOARDSIZE + j));

                // Check if turn is legal for player
                if self.is_legal(&turn) {
                    return true;
                }
                j = j + 1;
            }
            i = i + 1;
        }
        false
    }

    /// Check if the game is over.
    pub fn over(&self) -> (r: bool)
        requires
            self.wf(),
        ensures
            r == self.game_over(),
    {
        !self.has_turn(self.player) && !self.has_turn(self.player.opponent())
    }

    /// The winner: `None` while the game goes on or on a tie, else the
    /// player with more pieces.
    pub closed spec fn winner_of(&self) -> Option<Player> {
        let b = balance(self.squares@, (BOARDSIZE * BOARDSIZE) as nat);
        if !self.game_over() || b == 0 {
            None
        } else if b < 0 {
            Some(Player::White)
        } else {
            Some(Player::Black)
        }
    }

    /// Get the winner of the game.
    ///
    /// Returns `None` if the game is still ongoing, or on a tie.
    pub fn winner(&self) -> (r: Option<Player>)
        requires
            self.wf(),
        ensures
            r == self.winner_of(),
    {
        if !self.over() {
            return None;
        }

        // Count who has more pieces
        let mut count: i64 = 0;
        let mut i: usize = 0;
        while i < self.height()
            invariant
                i <= BOARDSIZE,
                self.wf(),
                count == balance(self.squares@, (i * BOARDSIZE) as nat),
            decreases BOARDSIZE - i,
        {
            let mut j: usize = 0;
            while j < self.width()
                invariant
                    i < BOARDSIZE,
                    j <= BOARDSIZE,
                    self.wf(),
                    count == balance(self.squares@, (i * BOARDSIZE + j) as nat),
                decreases BOARDSIZE - j,
            {
                proof {
                    lemma_balance_bound(self.squares@, (i * BOARDSIZE + j) as nat);
                }
                let w: i64 = match *self.index(Position(i, j)) {
                    Square::Piece(Player::Black) => 1,
                    Square::Piece(Player::White) => -1,
                    Square::Empty => 0,
                };
                count = count + w;
                j = j + 1;
            }
            i = i + 1;
        }

        if count < 0 {
            Some(Player::White)
        } else if count == 0 {
            None
        } else {
            Some(Player::Black)
        }
    }

    /// What the square at row `rr`, column `cc` holds while turn `t` is set
    /// on this board: the turn's piece at its position and on the squares it
    /// captures through the first `n` directions, and on those of direction
    /// (`x`, `y`) before step `i`; elsewhere what the square held before.
    pub closed spec fn setting(&self, t: Turn, rr: int, cc: int, n: int, x: int, y: int, i: int) -> Option<
        Square,
    > {
        if rr == t.pos.0 && cc == t.pos.1 {
            Some(Square::Piece(t.player))
        } else if self.captured_within(t, rr, cc, n) || exists|j: int|
            1 <= j < i && rr == ray(t.pos.0 as int, j, x) && cc == #[trigger] ray(t.pos.1 as int, j, y) {
            Some(Square::Piece(t.player))
        } else {
            self.at(rr, cc)
        }
    }

    /// On the ray in direction (`x`, `y`), not yet visited, a board that
    /// follows `setting` still holds what this board held.
    proof fn lemma_ray_untouched(&self, cur: &Board, t: Turn, x: int, y: int, i: int)
        requires
            -1 <= x <= 1,
            -1 <= y <= 1,
            x != 0 || y != 0,
            on_board(t.pos.0 as int, t.pos.1 as int),
            forall|rr: int, cc: int|
                on_board(rr, cc) ==> #[trigger] cur.at(rr, cc) == self.setting(
                    t,
                    rr,
                    cc,
                    dir_index(x, y),
                    x,
                    y,
                    i,
                ),
        ensures
            forall|j: int|
                j >= i && j >= 1 ==> #[trigger] cur.at(ray(t.pos.0 as int, j, x), ray(t.pos.1 as int, j, y))
                    == self.at(ray(t.pos.0 as int, j, x), ray(t.pos.1 as int, j, y)),
    {
        assert forall|j: int| j >= i && j >= 1 implies #[trigger] cur.at(
            ray(t.pos.0 as int, j, x),
            ray(t.pos.1 as int, j, y),
        ) == self.at(ray(t.pos.0 as int, j, x), ray(t.pos.1 as int, j, y)) by {
            let rr = ray(t.pos.0 as int, j, x);
            let cc = ray(t.pos.1 as int, j, y);
            if on_board(rr, cc) {
                assert(cur.at(rr, cc) == self.setting(t, rr, cc, dir_index(x, y), x, y, i));
                if self.captured_within(t, rr, cc, dir_index(x, y)) {
                    let (ex, ey, k) = choose|ex: int, ey: int, k: int|
                        -1 <= ex <= 1 && -1 <= ey <= 1 && dir_index(ex, ey) < dir_index(x, y) && 1 <= k
                            && rr == ray(t.pos.0 as int, k, ex) && cc == ray(t.pos.1 as int, k, ey)
                            && self.legal_dir(t, ex, ey) && #[trigger] self.run(t, ex, ey, k);
                    lemma_rays_apart(t.pos.0 as int, t.pos.1 as int, x, y, j, ex, ey, k);
                }
                if exists|m: int|
                    1 <= m < i && rr == ray(t.pos.0 as int, m, x) && cc == #[trigger] ray(
                        t.pos.1 as int,
                        m,
                        y,
                    ) {
                    let m = choose|m: int|
                        1 <= m < i && rr == ray(t.pos.0 as int, m, x) && cc == #[trigger] ray(
                            t.pos.1 as int,
                            m,
                            y,
                        );
                    lemma_rays_apart(t.pos.0 as int, t.pos.1 as int, x, y, j, x, y, m);
                }
            }
        }
    }

    /// Set a turn on the board: place the piece, then flip the opponent's
    /// pieces that the turn captures, in each direction in which it captures.
    ///
    /// Performs legality check on `turn`, and changes nothing if it fails.
    #[verifier::rlimit(40)]
    pub fn set_turn(&mut self, turn: &Turn) -> (r: bool)
        requires
            old(self).wf(),
        ensures
            final(self).wf(),
            r == old(self).legal(*turn),
            !r ==> *final(self) == *old(self),
            r ==> final(self).side() == turn.player,
            r ==> forall|rr: int, cc: int|
                on_board(rr, cc) ==> #[trigger] final(self).at(rr, cc) == if rr == turn.pos.0 && cc
                    == turn.pos.1 {
                    Some(Square::Piece(turn.player))
                } else if old(self).captures(*turn, rr, cc) {
                    Some(Square::Piece(turn.player))
                } else {
                    old(self).at(rr, cc)
                },
            r ==> placed_and_flipped(
                old(self).cells(),
                final(self).cells(),
                turn.pos.0 * 8 + turn.pos.1,
                turn.player,
            ),
    {
        // Perform legality check
        if !self.is_legal(turn) {
            return false;
        }
        let ghost orig = *self;
        let ghost before = self.squares@;
        let Position(row, col) = turn.pos;
        let at = row * BOARDSIZE + col;
        let opponent = turn.player.opponent();

        // Set the player
        self.player = turn.player;

        // Set the piece
        self.squares[at] = Square::Piece(turn.player);
        proof {
            assert forall|rr: int, cc: int| on_board(rr, cc) implies #[trigger] self.at(rr, cc)
                == orig.setting(*turn, rr, cc, 0, 0, 0, 1) by {
                if rr != row || cc != col {
                    assert(rr * 8 + cc != at);
                }
            }
        }

        // Flip pieces in each legal direction
        let mut x: isize = -1;
        while x <= 1
            invariant
                -1 <= x <= 2,
                self.wf(),
                row < BOARDSIZE,
                col < BOARDSIZE,
                at == row * 8 + col,
                turn.pos == Position(row, col),
                opponent == turn.player.other(),
                self.player == turn.player,
                orig.wf(),
                orig.legal(*turn),
                orig.squares@ == before,
                placed_and_flipped(before, self.squares@, at as int, turn.player),
                forall|rr: int, cc: int|
                    on_board(rr, cc) ==> #[trigger] self.at(rr, cc) == orig.setting(
                        *turn,
                        rr,
                        cc,
                        dir_index(x as int, -1),
                        0,
                        0,
                        1,
                    ),
            decreases 2 - x,
        {
            let mut y: isize = -1;
            while y <= 1
                invariant
                    -1 <= x <= 1,
                    -1 <= y <= 2,
                    self.wf(),
                    row < BOARDSIZE,
                    col < BOARDSIZE,
                    at == row * 8 + col,
                    turn.pos == Position(row, col),
                    opponent == turn.player.other(),
                    self.player == turn.player,
                    orig.wf(),
                    orig.legal(*turn),
                    orig.squares@ == before,
                    placed_and_flipped(before, self.squares@, at as int, turn.player),
                    forall|rr: int, cc: int|
                        on_board(rr, cc) ==> #[trigger] self.at(rr, cc) == orig.setting(
                            *turn,
                            rr,
                            cc,
                            dir_index(x as int, y as int),
                            0,
                            0,
                            1,
                        ),
                decreases 2 - y,
            {
                let ghost n = dir_index(x as int, y as int);
                proof {
                    if x != 0 || y != 0 {
                        orig.lemma_ray_untouched(self, *turn, x as int, y as int, 1);
                        assert forall|rr: int, cc: int| on_board(rr, cc) implies #[trigger] self.at(rr, cc)
                            == orig.setting(*turn, rr, cc, n, x as int, y as int, 1) by {
                            assert(self.at(rr, cc) == orig.setting(*turn, rr, cc, n, 0, 0, 1));
                        }
                        self.lemma_legal_dir_same_ray(&orig, *turn, x as int, y as int);
                    } else {
                        assert(self.at(row as int, col as int) == Some(Square::Piece(turn.player)));
                        assert(orig.at(row as int, col as int) == Some(Square::Empty));
                    }
                }
                // Only flip if legal in direction
                if self.is_legal_in_direction(turn, (x, y)) {
                    // Iterate in direction, flipping the opponent's pieces
                    let mut i: usize = 1;
                    while i < BOARDSIZE
                        invariant
                            -1 <= x <= 1,
                            -1 <= y <= 1,
                            x != 0 || y != 0,
                            1 <= i <= BOARDSIZE,
                            self.wf(),
                            row < BOARDSIZE,
                            col < BOARDSIZE,
                            at == row * 8 + col,
                            turn.pos == Position(row, col),
                            opponent == turn.player.other(),
                            self.player == turn.player,
                            orig.wf(),
                            n == dir_index(x as int, y as int),
                            orig.legal_dir(*turn, x as int, y as int),
                            orig.run(*turn, x as int, y as int, i - 1),
                            placed_and_flipped(before, self.squares@, at as int, turn.player),
                            forall|rr: int, cc: int|
                                on_board(rr, cc) ==> #[trigger] self.at(rr, cc) == orig.setting(
                                    *turn,
                                    rr,
                                    cc,
                                    n,
                                    x as int,
                                    y as int,
                                    i as int,
                                ),
                        ensures
                            self.wf(),
                            self.player == turn.player,
                            orig.run(*turn, x as int, y as int, i - 1),
                            !orig.run(*turn, x as int, y as int, i as int),
                            placed_and_flipped(before, self.squares@, at as int, turn.player),
                            forall|rr: int, cc: int|
                                on_board(rr, cc) ==> #[trigger] self.at(rr, cc) == orig.setting(
                                    *turn,
                                    rr,
                                    cc,
                                    n,
                                    x as int,
                                    y as int,
                                    i as int,
                                ),
                        decreases BOARDSIZE - i,
                    {
                        let ghost ri = ray(row as int, i as int, x as int);
                        let ghost ci = ray(col as int, i as int, y as int);
                        proof {
                            orig.lemma_ray_untouched(self, *turn, x as int, y as int, i as int);
                            assert(self.at(ri, ci) == orig.at(ri, ci));
                        }
                        let p = match self.position_along(row, col, i, x, y) {
                            Some(p) => p,
                            None => {
                                break;
                            },
                        };
                        let k = p.0 * BOARDSIZE + p.1;
                        if self.squares[k] != Square::Piece(opponent) {
                            break;
                        }
                        let ghost prev = self.squares@;
                        let ghost cur = *self;
                        self.squares[k] = Square::Piece(turn.player);
                        proof {
                            assert forall|m: int|
                                0 <= m < before.len() && m != at && #[trigger] self.squares@[m]
                                    != before[m] implies before[m] == Square::Piece(
                                    turn.player.other(),
                                ) && self.squares@[m] == Square::Piece(turn.player) by {
                                if m != k {
                                    assert(self.squares@[m] == prev[m]);
                                }
                            }
                            assert(orig.run(*turn, x as int, y as int, i as int));
                            assert forall|rr: int, cc: int| on_board(rr, cc) implies #[trigger] self.at(rr, cc)
                                == orig.setting(*turn, rr, cc, n, x as int, y as int, i + 1) by {
                                if rr == ri && cc == ci {
                                    assert(1 <= i < i + 1 && rr == ray(row as int, i as int, x as int)
                                        && cc == ray(col as int, i as int, y as int));
                                } else {
                                    assert(rr * 8 + cc != k);
                                    assert(self.at(rr, cc) == cur.at(rr, cc));
                                    assert(cur.at(rr, cc) == orig.setting(*turn, rr, cc, n, x as int, y as int, i as int));
                                    if exists|j: int|
                                        1 <= j < i + 1 && rr == ray(row as int, j, x as int) && cc
                                            == #[trigger] ray(col as int, j, y as int) {
                                        let j = choose|j: int|
                                            1 <= j < i + 1 && rr == ray(row as int, j, x as int) && cc
                                                == #[trigger] ray(col as int, j, y as int);
                                        assert(j != i);
                                    }
                                }
                            }
                        }
                        i = i + 1;
                    }
                    proof {
                        assert forall|rr: int, cc: int| on_board(rr, cc) implies #[trigger] self.at(rr, cc)
                            == orig.setting(*turn, rr, cc, n + 1, 0, 0, 1) by {
                            orig.lemma_within_next(*turn, rr, cc, x as int, y as int, i as int);
                        }
                    }
                } else {
                    proof {
                        assert forall|rr: int, cc: int| on_board(rr, cc) implies #[trigger] self.at(rr, cc)
                            == orig.setting(*turn, rr, cc, n + 1, 0, 0, 1) by {
                            orig.lemma_within_skip(*turn, rr, cc, x as int, y as int);
                        }
                    }
                }
                y = y + 1;
            }
            x = x + 1;
        }
        true
    }

    /// `next` is this board after `t` is played. A legal turn puts its
    /// piece on its square and on every square it captures, leaves the other
    /// squares alone, and hands the move to the opponent if the opponent then
    /// has a legal turn. An illegal turn changes nothing.
    pub closed spec fn played(&self, t: Turn, next: Board) -> bool {
        if self.legal(t) {
            &&& forall|rr: int, cc: int|
                on_board(rr, cc) ==> #[trigger] next.at(rr, cc) == if rr == t.pos.0 && cc == t.pos.1 {
                    Some(Square::Piece(t.player))
                } else if self.captures(t, rr, cc) {
                    Some(Square::Piece(t.player))
                } else {
                    self.at(rr, cc)
                }
            &&& next.side() == if next.has_move(t.player.other()) {
                t.player.other()
            } else {
                t.player
            }
        } else {
            next == *self
        }
    }

    /// Play a turn of the game: set it, then hand the move to the opponent
    /// if the opponent has a legal turn.
    pub fn play(&mut self, turn: &Turn) -> (r: bool)
        requires
            old(self).wf(),
        ensures
            final(self).wf(),
            r == old(self).legal(*turn),
            !r ==> *final(self) == *old(self),
            r ==> placed_and_flipped(
                old(self).cells(),
                final(self).cells(),
                turn.pos.0 * 8 + turn.pos.1,
                turn.player,
            ),
            r ==> forall|rr: int, cc: int|
                on_board(rr, cc) ==> #[trigger] final(self).at(rr, cc) == if rr == turn.pos.0 && cc
                    == turn.pos.1 {
                    Some(Square::Piece(turn.player))
                } else if old(self).captures(*turn, rr, cc) {
                    Some(Square::Piece(turn.player))
                } else {
                    old(self).at(rr, cc)
                },
            r ==> final(self).side() == if final(self).has_move(turn.player.other()) {
                turn.player.other()
            } else {
                turn.player
            },
            r ==> empties(final(self).cells(), 64) + 1 == empties(old(self).cells(), 64),
            old(self).played(*turn, *final(self)),
    {
        // Try to play the turn
        let success = self.set_turn(turn);

        // Only switch players if opponent has a turn
        let ghost placed = *self;
        if success && self.has_turn(self.player.opponent()) {
            self.player.switch();
        }
        proof {
            assert forall|rr: int, cc: int| on_board(rr, cc) implies #[trigger] self.at(rr, cc) == placed.at(rr, cc) by {}
            assert forall|t: Turn|
                #![trigger self.legal(t)]
                #![trigger placed.legal(t)]
                self.legal(t) == placed.legal(t) by {
                self.lemma_legal_same_squares(&placed, t);
            }
            assert(self.has_move(turn.player.other()) == placed.has_move(turn.player.other()));
            if success {
                lemma_empties_fill(
                    old(self).cells(),
                    self.cells(),
                    turn.pos.0 * 8 + turn.pos.1,
                    turn.player,
                    64,
                );
            }
        }
        success
    }
}

/// Why a typed position was refused.
#[derive(Clone, Copy, Debug, PartialEq, Eq, Structural)]
pub enum InputError {
    /// Nothing was typed.
    Empty,
    /// The input is not two characters long.
    Length,
    /// The row digit lies below `1`.
    Row,
    /// The column letter lies below `a`.
    Col,
}

impl Position {
    /// Parse a position typed as a column letter and a row digit (byte 97 is
    /// `a`, byte 49 is `1`), such as
    /// `d3` for row 2, column 3 (both counted from zero).
    pub fn parse(input: &[u8]) -> (r: Result<Position, InputError>)
        ensures
            input@.len() == 0 ==> r == Err::<Position, InputError>(InputError::Empty),
            input@.len() != 0 && input@.len() != 2 ==> r == Err::<Position, InputError>(
                InputError::Length,
            ),
            input@.len() == 2 && input@[1] < 49 ==> r == Err::<Position, InputError>(InputError::Row),
            input@.len() == 2 && input@[1] >= 49 && input@[0] < 97 ==> r == Err::<
                Position,
                InputError,
            >(InputError::Col),
            input@.len() == 2 && input@[1] >= 49 && input@[0] >= 97 ==> r == Ok::<
                Position,
                InputError,
            >(Position((input@[1] - 49) as usize, (input@[0] - 97) as usize)),
    {
        if input.len() == 0 {
            return Err(InputError::Empty);
        }
        if input.len() != 2 {
            return Err(InputError::Length);
        }
        let row = match input[1].checked_sub(49u8) {
            Some(row) => row as usize,
            None => {
                return Err(InputError::Row);
            },
        };
        let col = match input[0].checked_sub(97u8) {
            Some(col) => col as usize,
            None => {
                return Err(InputError::Col);
            },
        };
        Ok(Position(row, col))
    }
}

} // verus!
