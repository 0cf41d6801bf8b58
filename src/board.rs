use vstd::prelude::*;

verus! {

/// The content of one cell of the board.
#[derive(Clone, Copy, PartialEq, Eq, Structural, Debug, Hash, PartialOrd, Ord)]
pub enum Tile {
    Empty,
    X,
    O,
}

/// One of the two sides of the game.
#[derive(Clone, Copy, PartialEq, Eq, Structural, Debug, Hash, PartialOrd, Ord)]
pub enum Player {
    X,
    O,
}

pub open spec fn next_spec(p: Player) -> Player {
    match p {
        Player::X => Player::O,
        Player::O => Player::X,
    }
}

pub open spec fn tile_of(p: Player) -> Tile {
    match p {
        Player::X => Tile::X,
        Player::O => Tile::O,
    }
}

impl Player {
    /// The player who moves after `self`.
    pub fn next(&self) -> (r: Player)
        ensures
            r == next_spec(*self),
    {
        match self {
            Player::X => Player::O,
            Player::O => Player::X,
        }
    }
}

impl From<Player> for Tile {
    fn from(value: Player) -> (r: Tile)
        ensures
            r == tile_of(value),
    {
        match value {
            Player::X => Tile::X,
            Player::O => Tile::O,
        }
    }
}

impl vstd::std_specs::convert::FromSpecImpl<Player> for Tile {
    open spec fn obeys_from_spec() -> bool {
        true
    }

    open spec fn from_spec(v: Player) -> Tile {
        tile_of(v)
    }
}

/// Side length of the board.
pub const SIZE: usize = 3;

/// Number of cells of the board.
pub const CELLS: usize = 9;

/// A cell coordinate: column `x`, row `y`.
#[derive(Clone, Copy, PartialEq, Eq, Structural, Debug, Hash, PartialOrd, Ord)]
pub struct Pos {
    pub x: usize,
    pub y: usize,
}

impl Pos {
    pub open spec fn in_bounds(self) -> bool {
        self.x < 3 && self.y < 3
    }

    /// Row-major index of an in-bounds position.
    pub open spec fn index(self) -> int {
        self.y * 3 + self.x
    }
}

/// The position of the cell with row-major index `i`.
pub open spec fn pos_of(i: int) -> Pos {
    Pos { x: (i % 3) as usize, y: (i / 3) as usize }
}

/// Row-major index of a position, `None` when it lies outside the board.
pub fn cell_index(pos: Pos) -> (r: Option<usize>)
    ensures
        pos.in_bounds() ==> r == Some(pos.index() as usize),
        !pos.in_bounds() ==> r.is_none(),
{
    if pos.x < SIZE && pos.y < SIZE {
        Some(pos.y * SIZE + pos.x)
    } else {
        None
    }
}

/// The position of the cell with row-major index `i`.
pub fn position_at(i: usize) -> (r: Pos)
    requires
        i < 9,
    ensures
        r == pos_of(i as int),
        r.in_bounds(),
        r.index() == i,
{
    Pos { x: i % SIZE, y: i / SIZE }
}

/// A 3x3 grid of values, stored row by row.
#[derive(Clone, Copy, PartialEq, Eq, Debug, Hash, PartialOrd, Ord)]
pub struct Grid<T> {
    pub cells: [T; 9],
}

impl<T: Copy> Grid<T> {
    /// The cells of the grid in row-major order.
    pub open spec fn view(self) -> Seq<T> {
        self.cells@
    }

    /// A grid whose cell at each position holds `f(position)`.
    pub fn from_fn<F: Fn(Pos) -> T>(f: F) -> (r: Grid<T>)
        requires
            forall|i: int| 0 <= i < 9 ==> f.requires((pos_of(i),)),
        ensures
            forall|i: int| 0 <= i < 9 ==> f.ensures((pos_of(i),), #[trigger] r.cells@[i]),
    {
        let first = f(position_at(0));
        let mut cells: [T; 9] = [first; 9];
        let mut i: usize = 1;
        while i < CELLS
            invariant
                1 <= i <= 9,
                forall|j: int| 0 <= j < 9 ==> f.requires((pos_of(j),)),
                forall|j: int| 0 <= j < i ==> f.ensures((pos_of(j),), #[trigger] cells@[j]),
            decreases 9 - i,
        {
            let v = f(position_at(i));
            cells[i] = v;
            i = i + 1;
        }
        Grid { cells }
    }

    /// The grid's extent: the corner `(0, 0)` it includes and the corner
    /// `(3, 3)` it stops short of.
    pub fn bounds(&self) -> (r: (Pos, Pos))
        ensures
            r.0 == (Pos { x: 0, y: 0 }),
            r.1 == (Pos { x: 3, y: 3 }),
    {
        (Pos { x: 0, y: 0 }, Pos { x: SIZE, y: SIZE })
    }

    /// All positions of the grid, row by row.
    pub fn positions(&self) -> (r: Vec<Pos>)
        ensures
            r@.len() == 9,
            forall|i: int| 0 <= i < 9 ==> #[trigger] r@[i] == pos_of(i),
    {
        all_positions()
    }

    /// Writes `value` at `position`; does nothing outside the board.
    pub fn set(&mut self, position: Pos, value: T)
        ensures
            position.in_bounds() ==> final(self)@ == old(self)@.update(position.index(), value),
            !position.in_bounds() ==> *final(self) == *old(self),
    {
        match cell_index(position) {
            Some(i) => {
                self.cells[i] = value;
            },
            None => {},
        }
    }

    /// The value at `position`, `None` outside the board.
    pub fn get(&self, position: Pos) -> (r: Option<&T>)
        ensures
            position.in_bounds() ==> r == Some(&self@[position.index()]),
            !position.in_bounds() ==> r.is_none(),
    {
        match cell_index(position) {
            Some(i) => Some(&self.cells[i]),
            None => None,
        }
    }
}

/// All nine positions in row-major order.
pub fn all_positions() -> (r: Vec<Pos>)
    ensures
        r@.len() == 9,
        forall|i: int| 0 <= i < 9 ==> #[trigger] r@[i] == pos_of(i),
{
    let mut r: Vec<Pos> = Vec::new();
    let mut i: usize = 0;
    while i < CELLS
        invariant
            i <= 9,
            r@.len() == i,
            forall|j: int| 0 <= j < i ==> #[trigger] r@[j] == pos_of(j),
        decreases 9 - i,
    {
        r.push(position_at(i));
        i = i + 1;
    }
    r
}


/// The eight lines of three cells, in the order in which they are checked:
/// rows, then columns, then the two diagonals.
pub open spec fn line_full(s: Seq<Tile>, a: int, b: int, c: int, t: Tile) -> bool {
    s[a] == t && s[b] == t && s[c] == t
}

pub open spec fn row_of(s: Seq<Tile>, y: int, t: Tile) -> bool {
    line_full(s, 3 * y, 3 * y + 1, 3 * y + 2, t)
}

pub open spec fn column_of(s: Seq<Tile>, x: int, t: Tile) -> bool {
    line_full(s, x, x + 3, x + 6, t)
}

pub open spec fn diagonal_of(s: Seq<Tile>, t: Tile) -> bool {
    line_full(s, 0, 4, 8, t) || line_full(s, 2, 4, 6, t)
}

/// The owner of the first completed line: rows top to bottom (X before O in each),
/// then columns left to right, then the diagonals.
pub open spec fn winner_spec(s: Seq<Tile>) -> Option<Player> {
    if row_of(s, 0, Tile::X) {
        Some(Player::X)
    } else if row_of(s, 0, Tile::O) {
        Some(Player::O)
    } else if row_of(s, 1, Tile::X) {
        Some(Player::X)
    } else if row_of(s, 1, Tile::O) {
        Some(Player::O)
    } else if row_of(s, 2, Tile::X) {
        Some(Player::X)
    } else if row_of(s, 2, Tile::O) {
        Some(Player::O)
    } else if column_of(s, 0, Tile::X) {
        Some(Player::X)
    } else if column_of(s, 0, Tile::O) {
        Some(Player::O)
    } else if column_of(s, 1, Tile::X) {
        Some(Player::X)
    } else if column_of(s, 1, Tile::O) {
        Some(Player::O)
    } else if column_of(s, 2, Tile::X) {
        Some(Player::X)
    } else if column_of(s, 2, Tile::O) {
        Some(Player::O)
    } else if diagonal_of(s, Tile::X) {
        Some(Player::X)
    } else if diagonal_of(s, Tile::O) {
        Some(Player::O)
    } else {
        None
    }
}

/// Number of cells among the first `n` that hold `t`.
pub open spec fn count_of(s: Seq<Tile>, t: Tile, n: int) -> int
    decreases n,
{
    if n <= 0 {
        0
    } else {
        count_of(s, t, n - 1) + if s[n - 1] == t { 1int } else { 0int }
    }
}

/// Row-major indices of the empty cells among the first `n`.
pub open spec fn empties_upto(s: Seq<Tile>, n: int) -> Seq<int>
    decreases n,
{
    if n <= 0 {
        Seq::empty()
    } else if s[n - 1] == Tile::Empty {
        empties_upto(s, n - 1).push(n - 1)
    } else {
        empties_upto(s, n - 1)
    }
}

/// Row-major indices of the empty cells of a board.
pub open spec fn empty_cells(s: Seq<Tile>) -> Seq<int> {
    empties_upto(s, 9)
}

pub open spec fn has_empty(s: Seq<Tile>) -> bool {
    exists|i: int| 0 <= i < 9 && s[i] == Tile::Empty
}

/// The player to move: none once the game is won or the board is full; otherwise
/// O when X has more marks, else X.
pub open spec fn current_player_spec(s: Seq<Tile>) -> Option<Player> {
    if winner_spec(s).is_some() || !has_empty(s) {
        None
    } else if count_of(s, Tile::X, 9) > count_of(s, Tile::O, 9) {
        Some(Player::O)
    } else {
        Some(Player::X)
    }
}

/// +1 when `player` has won, -1 when the other side has, 0 otherwise.
pub open spec fn reward_spec(s: Seq<Tile>, player: Player) -> int {
    match winner_spec(s) {
        None => 0,
        Some(w) => if w == player { 1 } else { -1 },
    }
}

impl Grid<Tile> {
    /// The empty board.
    pub fn new() -> (r: Grid<Tile>)
        ensures
            forall|i: int| 0 <= i < 9 ==> #[trigger] r@[i] == Tile::Empty,
    {
        Grid { cells: [Tile::Empty; 9] }
    }

    /// Whether `pos` is on the board and empty, that is, a legal move.
    pub fn check(&self, pos: Pos) -> (r: bool)
        ensures
            r == (pos.in_bounds() && self@[pos.index()] == Tile::Empty),
    {
        match self.get(pos) {
            Some(t) => *t == Tile::Empty,
            None => false,
        }
    }

    fn line_owner(&self, a: usize, b: usize, c: usize, t: Tile) -> (r: bool)
        requires
            a < 9,
            b < 9,
            c < 9,
        ensures
            r == line_full(self@, a as int, b as int, c as int, t),
    {
        self.cells[a] == t && self.cells[b] == t && self.cells[c] == t
    }

    /// The owner of a completed line, if any (see `winner_spec` for the order in
    /// which lines are examined).
    pub fn winner(&self) -> (r: Option<Player>)
        ensures
            r == winner_spec(self@),
    {
        let mut y: usize = 0;
        while y < SIZE
            invariant
                y <= 3,
                forall|k: int| 0 <= k < y ==> !row_of(self@, k, Tile::X) && !row_of(self@, k, Tile::O),
            decreases 3 - y,
        {
            if self.line_owner(3 * y, 3 * y + 1, 3 * y + 2, Tile::X) {
                return Some(Player::X);
            }
            if self.line_owner(3 * y, 3 * y + 1, 3 * y + 2, Tile::O) {
                return Some(Player::O);
            }
            y = y + 1;
        }
        let mut x: usize = 0;
        while x < SIZE
            invariant
                x <= 3,
                forall|k: int| 0 <= k < 3 ==> !row_of(self@, k, Tile::X) && !row_of(self@, k, Tile::O),
                forall|k: int| 0 <= k < x ==> !column_of(self@, k, Tile::X) && !column_of(self@, k, Tile::O),
            decreases 3 - x,
        {
            if self.line_owner(x, x + 3, x + 6, Tile::X) {
                return Some(Player::X);
            }
            if self.line_owner(x, x + 3, x + 6, Tile::O) {
                return Some(Player::O);
            }
            x = x + 1;
        }
        if self.line_owner(0, 4, 8, Tile::X) || self.line_owner(2, 4, 6, Tile::X) {
            return Some(Player::X);
        }
        if self.line_owner(0, 4, 8, Tile::O) || self.line_owner(2, 4, 6, Tile::O) {
            return Some(Player::O);
        }
        None
    }

    /// Number of cells holding `t`.
    pub fn count(&self, t: Tile) -> (r: usize)
        ensures
            r == count_of(self@, t, 9),
    {
        let mut n: usize = 0;
        let mut i: usize = 0;
        while i < CELLS
            invariant
                i <= 9,
                n == count_of(self@, t, i as int),
                n <= i,
            decreases 9 - i,
        {
            if self.cells[i] == t {
                n = n + 1;
            }
            i = i + 1;
        }
        n
    }

    /// The empty positions in row-major order.
    pub fn empty_positions(&self) -> (r: Vec<Pos>)
        ensures
            r@.len() == empty_cells(self@).len(),
            forall|k: int| 0 <= k < r@.len() ==> #[trigger] r@[k] == pos_of(empty_cells(self@)[k]),
    {
        let mut r: Vec<Pos> = Vec::new();
        let mut i: usize = 0;
        while i < CELLS
            invariant
                i <= 9,
                r@.len() == empties_upto(self@, i as int).len(),
                forall|k: int| 0 <= k < r@.len() ==> #[trigger] r@[k] == pos_of(empties_upto(self@, i as int)[k]),
            decreases 9 - i,
        {
            if self.cells[i] == Tile::Empty {
                r.push(position_at(i));
            }
            i = i + 1;
        }
        r
    }

    /// Whether some cell is empty.
    pub fn has_empty(&self) -> (r: bool)
        ensures
            r == has_empty(self@),
    {
        let mut i: usize = 0;
        while i < CELLS
            invariant
                i <= 9,
                forall|j: int| 0 <= j < i ==> self@[j] != Tile::Empty,
            decreases 9 - i,
        {
            if self.cells[i] == Tile::Empty {
                return true;
            }
            i = i + 1;
        }
        false
    }

    /// The player to move, `None` when the game is over.
    pub fn current_player(&self) -> (r: Option<Player>)
        ensures
            r == current_player_spec(self@),
    {
        if self.winner().is_some() || !self.has_empty() {
            return None;
        }
        let count_x = self.count(Tile::X);
        let count_o = self.count(Tile::O);
        if count_x > count_o {
            Some(Player::O)
        } else {
            Some(Player::X)
        }
    }

    /// The outcome for `player`: 1 for a win, -1 for a loss, 0 otherwise.
    pub fn reward(&self, player: Player) -> (r: i64)
        ensures
            r == reward_spec(self@, player),
    {
        match self.winner() {
            None => 0,
            Some(w) => if w == player { 1 } else { -1 },
        }
    }
}

} // verus!
