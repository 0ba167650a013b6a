//! Headings on a grid and the rule that says which change of heading is legal.

use vstd::prelude::*;

verus! {

/// One of the four cardinal travel directions.
#[derive(Copy, Clone, Debug, PartialEq, Eq, Structural, Hash)]
pub enum Direction {
    Up,
    Down,
    Left,
    Right,
}

/// The fewest cells that must lie behind a turn, and behind the arrival.
pub open spec fn min_run(ultra: bool) -> int {
    if ultra {
        4
    } else {
        0
    }
}

/// The most cells that may be travelled in one heading without a turn.
pub open spec fn max_run(ultra: bool) -> int {
    if ultra {
        10
    } else {
        3
    }
}

/// A move from heading `current`, held for `run` cells, into heading `next`
/// is legal when it is no reversal, when a straight continuation stays below
/// the longest run, and when a turn has the shortest run behind it.
pub open spec fn move_allowed(current: Direction, next: Direction, run: int, ultra: bool) -> bool {
    &&& next != current.opposite()
    &&& if next == current {
        run < max_run(ultra)
    } else {
        run >= min_run(ultra)
    }
}

impl Direction {
    /// The reverse heading.
    pub open spec fn opposite(self) -> Direction {
        match self {
            Direction::Up => Direction::Down,
            Direction::Down => Direction::Up,
            Direction::Left => Direction::Right,
            Direction::Right => Direction::Left,
        }
    }

    /// The heading's position in the order Up, Down, Left, Right.
    pub open spec fn ordinal(self) -> int {
        match self {
            Direction::Up => 0,
            Direction::Down => 1,
            Direction::Left => 2,
            Direction::Right => 3,
        }
    }

    /// The change of the column that one cell in this heading makes.
    pub open spec fn dx(self) -> int {
        match self {
            Direction::Left => -1,
            Direction::Right => 1,
            _ => 0,
        }
    }

    /// The change of the row that one cell in this heading makes.
    pub open spec fn dy(self) -> int {
        match self {
            Direction::Up => -1,
            Direction::Down => 1,
            _ => 0,
        }
    }

    /// The reverse heading.
    pub fn backwards(&self) -> (r: Self)
        ensures
            r == self.opposite(),
    {
        match self {
            Direction::Up => Direction::Down,
            Direction::Down => Direction::Up,
            Direction::Left => Direction::Right,
            Direction::Right => Direction::Left,
        }
    }

    /// The heading as an index into a table with one slot per heading.
    pub fn index(self) -> (i: usize)
        ensures
            i == self.ordinal(),
            i < 4,
    {
        match self {
            Direction::Up => 0,
            Direction::Down => 1,
            Direction::Left => 2,
            Direction::Right => 3,
        }
    }

    /// The arrow that stands for the heading when a route is drawn.
    pub fn glyph(self) -> (c: char)
        ensures
            c == match self {
                Direction::Up => '^',
                Direction::Down => 'v',
                Direction::Left => '<',
                Direction::Right => '>',
            },
    {
        match self {
            Direction::Up => '^',
            Direction::Down => 'v',
            Direction::Left => '<',
            Direction::Right => '>',
        }
    }
}

/// Whether a traveller who has held `current_direction` for `straight_line`
/// cells may go on in `new_direction`: never backwards; straight on only
/// below the longest run, which is three cells, or ten where `ultra` is set;
/// and, where `ultra` is set, into a turn only after four cells.
pub fn can_move(current_direction: Direction, new_direction: Direction, straight_line: u8, ultra: bool) -> (ok: bool)
    ensures
        ok == move_allowed(current_direction, new_direction, straight_line as int, ultra),
{
    if new_direction == current_direction.backwards() {
        false
    } else if current_direction != new_direction {
        if ultra {
            straight_line >= 4
        } else {
            true
        }
    } else if ultra {
        straight_line < 10
    } else {
        straight_line < 3
    }
}

} // verus!
