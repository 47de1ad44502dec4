use robot_reboot::board::{Board, WALLS};
use robot_reboot::config::JsonConfig;
use robot_reboot::pieces::{Color, Direction, Position};

use Color::{G, R};
use Direction::{Down, Left, Right, Up};

fn challenge() -> JsonConfig {
    JsonConfig {
        _id: "5d5c5e5f".to_string(),
        config: "01122130".to_string(),
        challengeId: 42,
        __v: 0,
        updated_at: String::new(),
        created_at: String::new(),
        challenge_date: String::new(),
        goals: [
            (1, 4, "red".to_string()),
            (5, 11, "green".to_string()),
            (10, 2, "blue".to_string()),
            (13, 9, "yellow".to_string()),
            (6, 6, "red".to_string()),
        ],
        robots: [
            (0, 0, "red".to_string()),
            (0, 15, "green".to_string()),
            (15, 0, "blue".to_string()),
            (15, 15, "yellow".to_string()),
        ],
    }
}

fn open_board(goal: Position, goal_color: Color) -> Board {
    Board {
        borders_v: [false; WALLS],
        borders_h: [false; WALLS],
        goal,
        goal_color,
        starts: [Position::new(0, 0), Position::new(5, 5), Position::new(6, 6), Position::new(9, 9)],
    }
}

#[test]
fn one_move() {
    let b = open_board(Position::new(15, 0), R);
    assert_eq!(b.solve(), vec![(R, Right)]);
}

#[test]
fn two_moves() {
    let b = open_board(Position::new(15, 15), R);
    assert_eq!(b.solve(), vec![(R, Down), (R, Right)]);
}

#[test]
fn six_moves_on_assembled_board() {
    let boards = challenge().get_boards();
    assert_eq!(
        boards[0].solve(),
        vec![(R, Down), (R, Right), (R, Up), (R, Right), (R, Down), (R, Left)]
    );
}

#[test]
fn seven_moves_on_assembled_board() {
    let boards = challenge().get_boards();
    assert_eq!(
        boards[4].solve(),
        vec![(R, Right), (R, Down), (G, Down), (G, Left), (G, Up), (G, Right), (R, Up)]
    );
}

#[test]
fn search_finds_the_same() {
    let b = open_board(Position::new(15, 15), R);
    assert_eq!(b.search(), Some(vec![(R, Down), (R, Right)]));
}

#[test]
fn walled_in_robots_cannot_reach_goal() {
    let mut b = open_board(Position::new(15, 15), R);
    b.borders_v = [true; WALLS];
    b.borders_h = [true; WALLS];
    assert_eq!(b.search(), None);
}

#[test]
fn goal_at_start_needs_another_configuration() {
    let mut b = open_board(Position::new(0, 0), R);
    b.borders_v = [true; WALLS];
    b.borders_h = [true; WALLS];
    assert_eq!(b.search(), None);
    let b = open_board(Position::new(0, 0), R);
    assert_eq!(b.solve(), vec![(G, Up)]);
}

#[test]
fn first_of_the_shortest_solutions() {
    // Both (red down, red right) and (red right, red down) take the red robot
    // to the corner; down is tried before right.
    let b = open_board(Position::new(15, 15), R);
    let moves = b.solve();
    assert_eq!(moves.len(), 2);
    assert_eq!(moves[0], (R, Down));
}
