use vstd::arithmetic::div_mod::{lemma_fundamental_div_mod, lemma_fundamental_div_mod_converse};
use vstd::prelude::*;

verus! {

/// The largest side length whose tile numbers still fit in a `u8`.
pub const MAX_SIZE: usize = 15;

/// A direction in which the blank travels; the neighbouring tile slides the other way.
#[derive(Clone, Copy, Debug, PartialEq, Eq, Structural)]
pub enum Direction {
    Up,
    Down,
    Left,
    Right,
}

impl Direction {
    /// The move that undoes this one.
    pub open spec fn inverse(self) -> Direction {
        match self {
            Direction::Up => Direction::Down,
            Direction::Down => Direction::Up,
            Direction::Left => Direction::Right,
            Direction::Right => Direction::Left,
        }
    }
}

/// What a draw of the random source turns into during a scramble.
pub open spec fn direction_of(draw: u8) -> Direction {
    if draw % 4 == 0 {
        Direction::Up
    } else if draw % 4 == 1 {
        Direction::Down
    } else if draw % 4 == 2 {
        Direction::Right
    } else {
        Direction::Left
    }
}

/// The mathematical picture of a board: its side, its cells in row-major
/// order and the index of the blank.
pub ghost struct Board {
    pub size: nat,
    pub cells: Seq<u8>,
    pub blank: nat,
}

/// `s` holds each of `1..=n` exactly once.
pub open spec fn is_permutation(s: Seq<u8>, n: nat) -> bool {
    &&& s.len() == n
    &&& forall|i: int| 0 <= i < s.len() ==> 1 <= #[trigger] s[i] <= n
    &&& forall|i: int, j: int|
        0 <= i < s.len() && 0 <= j < s.len() && i != j ==> #[trigger] s[i] != #[trigger] s[j]
}

impl Board {
    /// The number of cells, which is also the number that marks the blank.
    pub open spec fn last_tile(self) -> nat {
        self.size * self.size
    }

    /// A valid side, the cells a permutation of `1..=size²`, and the blank
    /// index pointing at the cell that holds `size²`.
    pub open spec fn wf(self) -> bool {
        &&& 2 <= self.size <= MAX_SIZE
        &&& is_permutation(self.cells, self.last_tile())
        &&& self.blank < self.last_tile()
        &&& self.cells[self.blank as int] == self.last_tile()
    }

    /// The board of side `n` with every tile in place and the blank in the
    /// bottom-right corner.
    pub open spec fn solved(n: nat) -> Board {
        Board {
            size: n,
            cells: Seq::new(n * n, |i: int| (i + 1) as u8),
            blank: (n * n - 1) as nat,
        }
    }

    /// Every cell holds the number one past its index.
    pub open spec fn in_order(self) -> bool {
        forall|i: int| 0 <= i < self.cells.len() ==> #[trigger] self.cells[i] == i + 1
    }

    /// Whether the blank can travel in direction `d` without leaving the grid.
    pub open spec fn can_move(self, d: Direction) -> bool {
        match d {
            Direction::Up => self.blank / self.size > 0,
            Direction::Down => self.blank / self.size < self.size - 1,
            Direction::Left => self.blank % self.size > 0,
            Direction::Right => self.blank % self.size < self.size - 1,
        }
    }

    /// The index the blank travels to in direction `d`.
    pub open spec fn target(self, d: Direction) -> int {
        match d {
            Direction::Up => self.blank - self.size,
            Direction::Down => (self.blank + self.size) as int,
            Direction::Left => self.blank - 1,
            Direction::Right => (self.blank + 1) as int,
        }
    }

    /// The board after the blank travels in direction `d`: it trades places
    /// with its neighbour there, or nothing happens at the edge of the grid.
    pub open spec fn moved(self, d: Direction) -> Board {
        if self.can_move(d) {
            let t = self.target(d);
            Board {
                size: self.size,
                cells: self.cells.update(self.blank as int, self.cells[t]).update(
                    t,
                    self.cells[self.blank as int],
                ),
                blank: t as nat,
            }
        } else {
            self
        }
    }

    /// The board after the moves `ds`, first to last.
    pub open spec fn moved_all(self, ds: Seq<Direction>) -> Board
        decreases ds.len(),
    {
        if ds.len() == 0 {
            self
        } else {
            self.moved_all(ds.drop_last()).moved(ds.last())
        }
    }

    /// Some sequence of moves leads from this board to `other`.
    pub open spec fn reaches(self, other: Board) -> bool {
        exists|ds: Seq<Direction>| self.moved_all(ds) == other
    }

    /// Some sequence of moves puts every tile in place.
    pub open spec fn solvable(self) -> bool {
        self.reaches(Board::solved(self.size))
    }

    /// The tiles of row `r`, left to right.
    pub open spec fn row(self, r: nat) -> Seq<u8> {
        self.cells.subrange((r * self.size) as int, (r * self.size + self.size) as int)
    }
}

proof fn lemma_square_bounds(n: nat)
    requires
        2 <= n <= MAX_SIZE,
    ensures
        4 <= n * n <= 225,
        n <= n * n,
{
    assert(4 <= n * n <= 225 && n <= n * n) by (nonlinear_arith)
        requires
            2 <= n <= 15,
    ;
}

/// The cell in row `r` and column `c` of a grid of side `n`.
proof fn lemma_cell(n: int, r: int, c: int)
    requires
        0 <= r < n,
        0 <= c < n,
    ensures
        0 <= r * n + c < n * n,
        (r * n + c) / n == r,
        (r * n + c) % n == c,
{
    assert(0 <= r * n + c < n * n) by (nonlinear_arith)
        requires
            0 <= r < n,
            0 <= c < n,
    ;
    lemma_fundamental_div_mod_converse(r * n + c, n, r, c);
}

/// Where the blank of a well-formed board lands after a legal move, in
/// rows and columns.
proof fn lemma_geometry(b: Board, d: Direction)
    requires
        b.wf(),
        b.can_move(d),
    ensures
        0 <= b.target(d) < b.last_tile(),
        b.target(d) != b.blank,
        b.moved(d).can_move(d.inverse()),
        b.moved(d).target(d.inverse()) == b.blank,
{
    let n = b.size as int;
    let x = b.blank as int;
    let r = x / n;
    let c = x % n;
    lemma_fundamental_div_mod(x, n);
    assert(x == r * n + c) by (nonlinear_arith)
        requires
            x == n * r + c,
    ;
    assert(r < n) by (nonlinear_arith)
        requires
            x == r * n + c,
            0 <= c < n,
            x < n * n,
            0 <= r,
    ;
    match d {
        Direction::Up => {
            assert(x - n == (r - 1) * n + c) by (nonlinear_arith)
                requires
                    x == r * n + c,
            ;
            lemma_cell(n, r - 1, c);
        },
        Direction::Down => {
            assert(x + n == (r + 1) * n + c) by (nonlinear_arith)
                requires
                    x == r * n + c,
            ;
            lemma_cell(n, r + 1, c);
        },
        Direction::Left => {
            lemma_cell(n, r, c - 1);
        },
        Direction::Right => {
            lemma_cell(n, r, c + 1);
        },
    }
}

/// A move keeps a board well formed: the cells stay a permutation and the
/// blank index still points at the largest number.
pub proof fn lemma_moved_wf(b: Board, d: Direction)
    requires
        b.wf(),
    ensures
        b.moved(d).wf(),
        b.moved(d).size == b.size,
{
    if b.can_move(d) {
        lemma_geometry(b, d);
        let m = b.moved(d);
        let t = b.target(d);
        assert forall|i: int, j: int|
            0 <= i < m.cells.len() && 0 <= j < m.cells.len() && i != j implies #[trigger] m.cells[i]
            != #[trigger] m.cells[j] by {
            let pi = if i == t { b.blank as int } else if i == b.blank { t } else { i };
            let pj = if j == t { b.blank as int } else if j == b.blank { t } else { j };
            assert(m.cells[i] == b.cells[pi]);
            assert(m.cells[j] == b.cells[pj]);
        }
        assert forall|i: int| 0 <= i < m.cells.len() implies 1 <= #[trigger] m.cells[i]
            <= m.last_tile() by {
            let pi = if i == t { b.blank as int } else if i == b.blank { t } else { i };
            assert(m.cells[i] == b.cells[pi]);
        }
    }
}

/// Any sequence of moves keeps a board well formed and of the same side.
pub proof fn lemma_moved_all_wf(b: Board, ds: Seq<Direction>)
    requires
        b.wf(),
    ensures
        b.moved_all(ds).wf(),
        b.moved_all(ds).size == b.size,
    decreases ds.len(),
{
    if ds.len() > 0 {
        lemma_moved_all_wf(b, ds.drop_last());
        lemma_moved_wf(b.moved_all(ds.drop_last()), ds.last());
    }
}

/// At the edge of the grid a move changes nothing: up in the top row, down
/// in the bottom row, left in the leftmost column, right in the rightmost.
pub proof fn lemma_edge_moves_change_nothing(b: Board)
    requires
        b.wf(),
    ensures
        b.blank / b.size == 0 ==> b.moved(Direction::Up) == b,
        b.blank / b.size == b.size - 1 ==> b.moved(Direction::Down) == b,
        b.blank % b.size == 0 ==> b.moved(Direction::Left) == b,
        b.blank % b.size == b.size - 1 ==> b.moved(Direction::Right) == b,
{
}

/// A legal move followed by the opposite move gives back the same board.
pub proof fn lemma_move_reversible(b: Board, d: Direction)
    requires
        b.wf(),
        b.can_move(d),
    ensures
        b.moved(d).can_move(d.inverse()),
        b.moved(d).moved(d.inverse()) == b,
{
    lemma_geometry(b, d);
    let back = b.moved(d).moved(d.inverse());
    assert(back.cells =~= b.cells);
}

/// A single legal move from a solved board leaves it out of order.
pub proof fn lemma_one_move_unsolves(n: nat, d: Direction)
    requires
        2 <= n <= MAX_SIZE,
        Board::solved(n).can_move(d),
    ensures
        !Board::solved(n).moved(d).in_order(),
{
    let b = Board::solved(n);
    lemma_solved_wf(n);
    lemma_geometry(b, d);
    let t = b.target(d);
    assert(b.moved(d).cells[t] != t + 1);
}

/// Moving first by `d` and then by `ds` is moving by `d` followed by `ds`.
proof fn lemma_moved_all_prepend(b: Board, d: Direction, ds: Seq<Direction>)
    ensures
        b.moved_all(seq![d] + ds) == b.moved(d).moved_all(ds),
    decreases ds.len(),
{
    let s = seq![d] + ds;
    if ds.len() == 0 {
        assert(s.drop_last() =~= Seq::<Direction>::empty());
        assert(b.moved_all(Seq::<Direction>::empty()) == b);
        assert(b.moved(d).moved_all(ds) == b.moved(d));
    } else {
        assert(s.last() == ds.last());
        assert(s.drop_last() =~= seq![d] + ds.drop_last());
        lemma_moved_all_prepend(b, d, ds.drop_last());
    }
}

/// Whatever moves lead away from a board, some moves lead back to it.
pub proof fn lemma_moves_undoable(b: Board, ds: Seq<Direction>)
    requires
        b.wf(),
    ensures
        b.moved_all(ds).reaches(b),
    decreases ds.len(),
{
    if ds.len() == 0 {
        assert(b.moved_all(Seq::<Direction>::empty()) == b);
        assert(b.moved_all(ds).moved_all(Seq::<Direction>::empty()) == b);
    } else {
        let c = b.moved_all(ds.drop_last());
        let d = ds.last();
        lemma_moves_undoable(b, ds.drop_last());
        let back = choose|back: Seq<Direction>| c.moved_all(back) == b;
        if c.can_move(d) {
            lemma_moved_all_wf(b, ds.drop_last());
            lemma_move_reversible(c, d);
            lemma_moved_all_prepend(c.moved(d), d.inverse(), back);
            assert(b.moved_all(ds).moved_all(seq![d.inverse()] + back) == b);
        } else {
            assert(b.moved_all(ds).moved_all(back) == b);
        }
    }
}

/// A board scrambled from the solved one by any moves can be solved again.
pub proof fn lemma_scramble_solvable(n: nat, ds: Seq<Direction>)
    requires
        2 <= n <= MAX_SIZE,
    ensures
        Board::solved(n).moved_all(ds).solvable(),
{
    lemma_solved_wf(n);
    lemma_moved_all_wf(Board::solved(n), ds);
    lemma_moves_undoable(Board::solved(n), ds);
}

/// A solved board of a valid side is well formed and in order.
pub proof fn lemma_solved_wf(n: nat)
    requires
        2 <= n <= MAX_SIZE,
    ensures
        Board::solved(n).wf(),
        Board::solved(n).in_order(),
{
    lemma_square_bounds(n);
}

/// A well-formed board is in order exactly when it is the solved board of
/// its side.
pub proof fn lemma_in_order_is_solved(b: Board)
    requires
        b.wf(),
    ensures
        b.in_order() <==> b == Board::solved(b.size),
{
    let n = b.size;
    lemma_square_bounds(n);
    if b.in_order() {
        assert(b.cells[b.blank as int] == b.blank + 1);
        assert(b.cells =~= Board::solved(n).cells);
    }
    if b == Board::solved(n) {
        lemma_solved_wf(n);
    }
}

/// A puzzle board: the tiles in row-major order and the position of the blank.
pub struct Pattern {
    pub size: usize,
    order: Vec<u8>,
    free_space: usize,
}

impl View for Pattern {
    type V = Board;

    closed spec fn view(&self) -> Board {
        Board { size: self.size as nat, cells: self.order@, blank: self.free_space as nat }
    }
}

impl Pattern {
    /// The board that this value stands for is well formed.
    pub open spec fn wf(&self) -> bool {
        self@.wf()
    }

    /// A solved board of side `size`.
    pub fn new(size: usize) -> (r: Pattern)
        requires
            2 <= size <= MAX_SIZE,
        ensures
            r@ == Board::solved(size as nat),
            r.wf(),
    {
        proof {
            lemma_square_bounds(size as nat);
        }
        let sq_size = size * size;
        let mut order: Vec<u8> = Vec::new();
        let mut i: usize = 0;
        while i < sq_size
            invariant
                sq_size == size * size,
                sq_size <= 225,
                i <= sq_size,
                order@.len() == i,
                forall|k: int| 0 <= k < i ==> #[trigger] order@[k] == k + 1,
            decreases sq_size - i,
        {
            order.push((i + 1) as u8);
            i = i + 1;
        }
        let r = Pattern { size, order, free_space: sq_size - 1 };
        assert(r@.cells =~= Board::solved(size as nat).cells);
        proof {
            lemma_solved_wf(size as nat);
        }
        r
    }

    /// The number that marks the blank: the count of cells.
    pub fn get_last_tile(&self) -> (r: usize)
        requires
            self.wf(),
        ensures
            r == self@.last_tile(),
    {
        proof {
            lemma_square_bounds(self.size as nat);
        }
        self.size * self.size
    }

    /// The tiles in row-major order.
    pub fn order(&self) -> (r: &[u8])
        ensures
            r@ == self@.cells,
    {
        self.order.as_slice()
    }

    /// Moves the blank to the legal target `t` of direction `d`.
    fn slide(&mut self, d: Direction, t: usize)
        requires
            old(self).wf(),
            old(self)@.can_move(d),
            t == old(self)@.target(d),
        ensures
            final(self)@ == old(self)@.moved(d),
            final(self).wf(),
    {
        proof {
            lemma_geometry(self@, d);
            lemma_moved_wf(self@, d);
        }
        let here = self.free_space;
        let blank = self.order[here];
        let tile = self.order[t];
        self.order[here] = tile;
        self.order[t] = blank;
        self.free_space = t;
    }

    /// Moves the blank one row up, unless it is in the top row.
    pub fn up(&mut self)
        requires
            old(self).wf(),
        ensures
            final(self)@ == old(self)@.moved(Direction::Up),
            final(self).wf(),
    {
        if self.free_space / self.size > 0 {
            proof {
                lemma_geometry(self@, Direction::Up);
            }
            let t = self.free_space - self.size;
            self.slide(Direction::Up, t);
        }
    }

    /// Moves the blank one row down, unless it is in the bottom row.
    pub fn down(&mut self)
        requires
            old(self).wf(),
        ensures
            final(self)@ == old(self)@.moved(Direction::Down),
            final(self).wf(),
    {
        if self.free_space / self.size < self.size - 1 {
            proof {
                lemma_geometry(self@, Direction::Down);
            }
            let t = self.free_space + self.size;
            self.slide(Direction::Down, t);
        }
    }

    /// Moves the blank one column left, unless it is in the leftmost column.
    pub fn left(&mut self)
        requires
            old(self).wf(),
        ensures
            final(self)@ == old(self)@.moved(Direction::Left),
            final(self).wf(),
    {
        if self.free_space % self.size > 0 {
            proof {
                lemma_geometry(self@, Direction::Left);
            }
            let t = self.free_space - 1;
            self.slide(Direction::Left, t);
        }
    }

    /// Moves the blank one column right, unless it is in the rightmost column.
    pub fn right(&mut self)
        requires
            old(self).wf(),
        ensures
            final(self)@ == old(self)@.moved(Direction::Right),
            final(self).wf(),
    {
        if self.free_space % self.size < self.size - 1 {
            proof {
                lemma_geometry(self@, Direction::Right);
            }
            let t = self.free_space + 1;
            self.slide(Direction::Right, t);
        }
    }

    /// Whether every tile stands in its place: cell `i` holds `i + 1`.
    pub fn is_in_order(&self) -> (r: bool)
        requires
            self.wf(),
        ensures
            r == self@.in_order(),
    {
        let n = self.order.len();
        let mut i: usize = 0;
        while i < n
            invariant
                self.wf(),
                n == self@.cells.len(),
                i <= n,
                forall|k: int| 0 <= k < i ==> #[trigger] self@.cells[k] == k + 1,
            decreases n - i,
        {
            if self.order[i] as usize != i + 1 {
                return false;
            }
            i = i + 1;
        }
        true
    }

    /// The tiles of row `row`, left to right, or `None` past the last row.
    pub fn get_row(&self, row: usize) -> (r: Option<&[u8]>)
        requires
            self.wf(),
        ensures
            match r {
                Some(s) => row < self@.size && s@ == self@.row(row as nat),
                None => row >= self@.size,
            },
    {
        if row >= self.size {
            return None;
        }
        proof {
            lemma_cell(self.size as int, row as int, 0);
            lemma_square_bounds(self.size as nat);
            assert(row * self.size + self.size <= self.size * self.size) by (nonlinear_arith)
                requires
                    row < self.size,
            ;
        }
        let start = row * self.size;
        let end = start + self.size;
        let cells = self.order.as_slice();
        Some(&cells[start..end])
    }

    /// One step of a scramble: the draw, taken modulo four, picks the
    /// direction in which the blank tries to move.
    pub fn scramble_step(&mut self, draw: u8)
        requires
            old(self).wf(),
        ensures
            final(self)@ == old(self)@.moved(direction_of(draw)),
            final(self).wf(),
    {
        let s = draw % 4;
        if s == 0 {
            self.up();
        } else if s == 1 {
            self.down();
        } else if s == 2 {
            self.right();
        } else {
            self.left();
        }
    }

    /// Scrambles the board with `steps` random moves. Each is a legal move or
    /// nothing, so the result is reachable from the board before the call.
    pub fn shuffle(&mut self, steps: usize)
        requires
            old(self).wf(),
        ensures
            final(self).wf(),
            final(self)@.size == old(self)@.size,
            exists|ds: Seq<Direction>|
                ds.len() == steps && #[trigger] old(self)@.moved_all(ds) == final(self)@,
    {
        let ghost start = self@;
        let ghost mut ds: Seq<Direction> = Seq::empty();
        let mut k: usize = 0;
        while k < steps
            invariant
                self.wf(),
                self.size == start.size,
                k <= steps,
                ds.len() == k,
                start.moved_all(ds) == self@,
            decreases steps - k,
        {
            let draw = random_byte();
            let ghost next = ds.push(direction_of(draw));
            assert(next.drop_last() =~= ds);
            self.scramble_step(draw);
            proof {
                ds = next;
            }
            k = k + 1;
        }
        assert(start.moved_all(ds) == self@);
    }
}

/// Relies on rand::random (the thread-local generator) for one byte; nothing
/// is known of its value.
#[verifier::external_body]
fn random_byte() -> (r: u8) {
    rand::random::<u8>()
}

} // verus!
