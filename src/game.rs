use crate::pattern::{lemma_scramble_solvable, Board, Direction, Pattern, MAX_SIZE};
use vstd::prelude::*;

verus! {

/// A key press, decoded, as the game reads it. An arrow names the way a tile
/// slides, so the blank travels the other way.
#[derive(Clone, Copy, Debug, PartialEq, Eq, Structural)]
pub enum Input {
    Up,
    Down,
    Left,
    Right,
    Quit,
    Other,
}

/// What the caller should do after a key press.
#[derive(Clone, Copy, Debug, PartialEq, Eq, Structural)]
pub enum Outcome {
    /// An arrow was handled: the board is to be drawn again.
    Moved,
    /// The key means nothing to the game.
    Ignored,
    /// The player gave up: the session ends.
    Quit,
    /// Every tile is in place: the session ends with the winning screen.
    Solved,
}

/// The way the blank travels for an input, if it is an arrow.
pub open spec fn blank_direction(input: Input) -> Option<Direction> {
    match input {
        Input::Up => Some(Direction::Down),
        Input::Down => Some(Direction::Up),
        Input::Left => Some(Direction::Right),
        Input::Right => Some(Direction::Left),
        _ => None,
    }
}

/// The outcome of `input` once the board has become `after`.
pub open spec fn outcome_of(input: Input, after: Board) -> Outcome {
    if input == Input::Quit {
        Outcome::Quit
    } else if after.in_order() {
        Outcome::Solved
    } else if blank_direction(input) is Some {
        Outcome::Moved
    } else {
        Outcome::Ignored
    }
}

/// The number of random moves that scramble a board of side `n`.
pub open spec fn scramble_steps(n: nat) -> nat {
    30 * (n * n * n)
}

/// One game session: a scrambled board that the player's keys rearrange.
pub struct Game {
    pattern: Pattern,
}

impl View for Game {
    type V = Board;

    closed spec fn view(&self) -> Board {
        self.pattern@
    }
}

impl Game {
    /// The board of the session is well formed.
    pub open spec fn wf(&self) -> bool {
        self@.wf()
    }

    /// A board of side `size`, scrambled from the solved one by
    /// `30 * size³` random moves.
    pub fn new(size: usize) -> (r: Game)
        requires
            2 <= size <= MAX_SIZE,
        ensures
            r.wf(),
            r@.size == size,
            exists|ds: Seq<Direction>|
                ds.len() == scramble_steps(size as nat) && #[trigger] Board::solved(
                    size as nat,
                ).moved_all(ds) == r@,
            r@.solvable(),
    {
        let mut pattern = Pattern::new(size);
        assert(size * size * size <= 3375) by (nonlinear_arith)
            requires
                2 <= size <= 15,
        ;
        let steps = 30 * (size * size * size);
        pattern.shuffle(steps);
        proof {
            let ds = choose|ds: Seq<Direction>|
                ds.len() == steps && #[trigger] Board::solved(size as nat).moved_all(ds)
                    == pattern@;
            lemma_scramble_solvable(size as nat, ds);
        }
        Game { pattern }
    }

    /// The board, for drawing.
    pub fn pattern(&self) -> (r: &Pattern)
        ensures
            r@ == self@,
    {
        &self.pattern
    }

    /// Handles one key press: an arrow moves the blank the other way (or not
    /// at all at the edge of the grid), and the outcome tells the caller
    /// whether to redraw, stop, or show the winning screen.
    pub fn handle(&mut self, input: Input) -> (r: Outcome)
        requires
            old(self).wf(),
        ensures
            final(self).wf(),
            final(self)@ == match blank_direction(input) {
                Some(d) => old(self)@.moved(d),
                None => old(self)@,
            },
            r == outcome_of(input, final(self)@),
    {
        match input {
            Input::Down => self.pattern.up(),
            Input::Up => self.pattern.down(),
            Input::Right => self.pattern.left(),
            Input::Left => self.pattern.right(),
            Input::Quit => {
                return Outcome::Quit;
            },
            Input::Other => {},
        }
        if self.pattern.is_in_order() {
            Outcome::Solved
        } else if input == Input::Other {
            Outcome::Ignored
        } else {
            Outcome::Moved
        }
    }
}

} // verus!
