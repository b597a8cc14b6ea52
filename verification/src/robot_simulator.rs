//! A robot on an unbounded grid that turns and advances on command.

use vstd::prelude::*;
use crate::text::chars_of;

verus! {

/// A compass direction.
#[derive(PartialEq, Eq, Structural, Debug)]
pub enum Direction {
    North,
    East,
    South,
    West,
}

struct Position {
    x: i32,
    y: i32,
}

/// A robot: where it stands and where it looks.
pub struct Robot {
    direction: Direction,
    position: Position,
}

/// What a robot is in the model.
pub struct RobotState {
    pub x: int,
    pub y: int,
    pub facing: Direction,
}

/// The direction a quarter turn to the right of `d`.
pub open spec fn right_of(d: Direction) -> Direction {
    match d {
        Direction::North => Direction::East,
        Direction::East => Direction::South,
        Direction::South => Direction::West,
        Direction::West => Direction::North,
    }
}

/// The direction a quarter turn to the left of `d`.
pub open spec fn left_of(d: Direction) -> Direction {
    match d {
        Direction::North => Direction::West,
        Direction::West => Direction::South,
        Direction::South => Direction::East,
        Direction::East => Direction::North,
    }
}

impl RobotState {
    /// The robot after a quarter turn to the right.
    pub open spec fn turned_right(self) -> RobotState {
        RobotState { x: self.x, y: self.y, facing: right_of(self.facing) }
    }

    /// The robot after a quarter turn to the left.
    pub open spec fn turned_left(self) -> RobotState {
        RobotState { x: self.x, y: self.y, facing: left_of(self.facing) }
    }

    /// The robot after one step in the direction it faces.
    pub open spec fn advanced(self) -> RobotState {
        match self.facing {
            Direction::North => RobotState { x: self.x, y: self.y + 1, facing: Direction::North },
            Direction::West => RobotState { x: self.x - 1, y: self.y, facing: Direction::West },
            Direction::South => RobotState { x: self.x, y: self.y - 1, facing: Direction::South },
            Direction::East => RobotState { x: self.x + 1, y: self.y, facing: Direction::East },
        }
    }

    /// Whether the robot stands where a machine integer can hold it.
    pub open spec fn on_grid(self) -> bool {
        i32::MIN <= self.x <= i32::MAX && i32::MIN <= self.y <= i32::MAX
    }

    /// The robot after the single instruction `c`; other characters than
    /// `R`, `L` and `A` are no instructions.
    pub open spec fn obeyed(self, c: char) -> RobotState {
        if c == 'R' {
            self.turned_right()
        } else if c == 'L' {
            self.turned_left()
        } else {
            self.advanced()
        }
    }

    /// The robot after the instructions `program`, first to last.
    pub open spec fn run(self, program: Seq<char>) -> RobotState
        decreases program.len(),
    {
        if program.len() == 0 {
            self
        } else {
            self.run(program.drop_last()).obeyed(program.last())
        }
    }

    /// Whether `program` holds instructions only and keeps the robot where a
    /// machine integer can hold it.
    pub open spec fn can_run(self, program: Seq<char>) -> bool
        decreases program.len(),
    {
        if program.len() == 0 {
            true
        } else {
            let c = program.last();
            &&& self.can_run(program.drop_last())
            &&& c == 'R' || c == 'L' || c == 'A'
            &&& self.run(program.drop_last()).obeyed(c).on_grid()
        }
    }
}

impl View for Robot {
    type V = RobotState;

    closed spec fn view(&self) -> RobotState {
        RobotState {
            x: self.position.x as int,
            y: self.position.y as int,
            facing: self.direction,
        }
    }
}

impl Robot {
    /// A robot at (`x`, `y`) that faces `d`.
    pub fn new(x: i32, y: i32, d: Direction) -> (r: Self)
        ensures
            r@ == (RobotState { x: x as int, y: y as int, facing: d }),
    {
        Robot { direction: d, position: Position { x, y } }
    }

    /// The robot after a quarter turn to the right.
    pub fn turn_right(self) -> (r: Self)
        ensures
            r@ == self@.turned_right(),
    {
        match self.direction {
            Direction::North => Robot::new(self.position.x, self.position.y, Direction::East),
            Direction::East => Robot::new(self.position.x, self.position.y, Direction::South),
            Direction::South => Robot::new(self.position.x, self.position.y, Direction::West),
            Direction::West => Robot::new(self.position.x, self.position.y, Direction::North),
        }
    }

    /// The robot after a quarter turn to the left.
    pub fn turn_left(self) -> (r: Self)
        ensures
            r@ == self@.turned_left(),
    {
        match self.direction {
            Direction::North => Robot::new(self.position.x, self.position.y, Direction::West),
            Direction::West => Robot::new(self.position.x, self.position.y, Direction::South),
            Direction::South => Robot::new(self.position.x, self.position.y, Direction::East),
            Direction::East => Robot::new(self.position.x, self.position.y, Direction::North),
        }
    }

    /// The robot after one step in the direction it faces.
    pub fn advance(self) -> (r: Self)
        requires
            self@.advanced().on_grid(),
        ensures
            r@ == self@.advanced(),
    {
        match self.direction {
            Direction::North => Robot::new(self.position.x, self.position.y + 1, Direction::North),
            Direction::West => Robot::new(self.position.x - 1, self.position.y, Direction::West),
            Direction::South => Robot::new(self.position.x, self.position.y - 1, Direction::South),
            Direction::East => Robot::new(self.position.x + 1, self.position.y, Direction::East),
        }
    }

    /// The robot after the instructions `instructions`, first to last: `R`
    /// turns right, `L` turns left, `A` advances.
    pub fn instructions(self, instructions: &str) -> (r: Self)
        requires
            self@.can_run(instructions@),
        ensures
            r@ == self@.run(instructions@),
    {
        let program = chars_of(instructions);
        let ghost start = self@;
        let mut robot = self;
        let mut i: usize = 0;
        while i < program.len()
            invariant
                i <= program@.len(),
                start.can_run(program@),
                robot@ == start.run(program@.take(i as int)),
            decreases program@.len() - i,
        {
            let c = program[i];
            proof {
                lemma_can_run_prefix(start, program@, i as int + 1);
                assert(program@.take(i as int + 1).drop_last() =~= program@.take(i as int));
            }
            robot = if c == 'R' {
                robot.turn_right()
            } else if c == 'L' {
                robot.turn_left()
            } else {
                robot.advance()
            };
            i += 1;
        }
        proof {
            assert(program@.take(i as int) =~= program@);
        }
        robot
    }

    /// Where the robot stands.
    pub fn position(&self) -> (p: (i32, i32))
        ensures
            p.0 == self@.x,
            p.1 == self@.y,
    {
        (self.position.x, self.position.y)
    }

    /// Where the robot looks.
    pub fn direction(&self) -> (d: &Direction)
        ensures
            *d == self@.facing,
    {
        &self.direction
    }
}

/// A program that can be run can be run up to any point.
pub proof fn lemma_can_run_prefix(start: RobotState, program: Seq<char>, n: int)
    requires
        start.can_run(program),
        0 <= n <= program.len(),
    ensures
        start.can_run(program.take(n)),
    decreases program.len(),
{
    if n < program.len() {
        lemma_can_run_prefix(start, program.drop_last(), n);
        assert(program.drop_last().take(n) =~= program.take(n));
    } else {
        assert(program.take(n) =~= program);
    }
}

/// Four quarter turns to the same side bring the robot back to where it
/// looked, and a turn to one side undoes a turn to the other.
pub proof fn lemma_turns(s: RobotState)
    ensures
        s.turned_right().turned_right().turned_right().turned_right() == s,
        s.turned_left().turned_left().turned_left().turned_left() == s,
        s.turned_right().turned_left() == s,
        s.turned_left().turned_right() == s,
{
}

/// Running one program after another is running the two joined.
pub proof fn lemma_run_concat(start: RobotState, first: Seq<char>, second: Seq<char>)
    ensures
        start.run(first + second) == start.run(first).run(second),
    decreases second.len(),
{
    if second.len() == 0 {
        assert(first + second =~= first);
    } else {
        lemma_run_concat(start, first, second.drop_last());
        assert((first + second).drop_last() =~= first + second.drop_last());
        assert((first + second).last() == second.last());
    }
}

} // verus!
