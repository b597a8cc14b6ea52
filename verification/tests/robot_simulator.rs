use katas::robot_simulator::{Direction, Robot};

#[test]
fn robots_are_created_with_position_and_direction() {
    let robot = Robot::new(0, 0, Direction::North);
    assert_eq!((0, 0), robot.position());
    assert_eq!(&Direction::North, robot.direction());
}

#[test]
fn positions_can_be_negative() {
    let robot = Robot::new(-1, -1, Direction::South);
    assert_eq!((-1, -1), robot.position());
    assert_eq!(&Direction::South, robot.direction());
}

#[test]
fn turning_right_goes_round_the_compass() {
    let robot = Robot::new(0, 0, Direction::North).turn_right();
    assert_eq!(&Direction::East, robot.direction());
    let robot = robot.turn_right();
    assert_eq!(&Direction::South, robot.direction());
    let robot = robot.turn_right();
    assert_eq!(&Direction::West, robot.direction());
    let robot = robot.turn_right();
    assert_eq!(&Direction::North, robot.direction());
    assert_eq!((0, 0), robot.position());
}

#[test]
fn turning_left_goes_round_the_compass() {
    let robot = Robot::new(0, 0, Direction::North).turn_left();
    assert_eq!(&Direction::West, robot.direction());
    let robot = robot.turn_left();
    assert_eq!(&Direction::South, robot.direction());
    let robot = robot.turn_left();
    assert_eq!(&Direction::East, robot.direction());
    let robot = robot.turn_left();
    assert_eq!(&Direction::North, robot.direction());
    assert_eq!((0, 0), robot.position());
}

#[test]
fn advancing_moves_one_step_in_the_direction_faced() {
    assert_eq!((0, 1), Robot::new(0, 0, Direction::North).advance().position());
    assert_eq!((1, 0), Robot::new(0, 0, Direction::East).advance().position());
    assert_eq!((0, -1), Robot::new(0, 0, Direction::South).advance().position());
    assert_eq!((-1, 0), Robot::new(0, 0, Direction::West).advance().position());
    assert_eq!(&Direction::West, Robot::new(0, 0, Direction::West).advance().direction());
}

#[test]
fn advancing_at_the_edge_of_the_range() {
    let robot = Robot::new(i32::MAX - 1, i32::MIN + 1, Direction::East).advance();
    assert_eq!((i32::MAX, i32::MIN + 1), robot.position());
    let robot = robot.turn_right().advance();
    assert_eq!((i32::MAX, i32::MIN), robot.position());
}

#[test]
fn follow_instructions_to_move_west_and_north() {
    let robot = Robot::new(0, 0, Direction::North).instructions("LAAARALA");
    assert_eq!((-4, 1), robot.position());
    assert_eq!(&Direction::West, robot.direction());
}

#[test]
fn follow_instructions_to_move_west_and_south() {
    let robot = Robot::new(2, -7, Direction::East).instructions("RRAAAAALA");
    assert_eq!((-3, -8), robot.position());
    assert_eq!(&Direction::South, robot.direction());
}

#[test]
fn follow_instructions_to_move_east_and_north() {
    let robot = Robot::new(8, 4, Direction::South).instructions("LAAARRRALLLL");
    assert_eq!((11, 5), robot.position());
    assert_eq!(&Direction::North, robot.direction());
}

#[test]
fn no_instructions_leave_the_robot_alone() {
    let robot = Robot::new(3, 4, Direction::East).instructions("");
    assert_eq!((3, 4), robot.position());
    assert_eq!(&Direction::East, robot.direction());
}

#[test]
fn one_program_after_another_is_the_two_joined() {
    let split = Robot::new(1, 1, Direction::West).instructions("ARA").instructions("LLA");
    let joined = Robot::new(1, 1, Direction::West).instructions("ARALLA");
    assert_eq!(split.position(), joined.position());
    assert_eq!(split.direction(), joined.direction());
}
