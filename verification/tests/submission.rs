use robot_reboot::board::{Board, WALLS};
use robot_reboot::config::JsonConfig;
use robot_reboot::pieces::{Color, Direction, Position};
use robot_reboot::submission::{build_submission, solution_entry};

fn board(goal: Position, goal_color: Color) -> Board {
    Board {
        borders_v: [false; WALLS],
        borders_h: [false; WALLS],
        goal,
        goal_color,
        starts: [Position::new(0, 0), Position::new(5, 5), Position::new(6, 6), Position::new(9, 9)],
    }
}

fn config() -> JsonConfig {
    JsonConfig {
        _id: String::new(),
        config: "01122130".to_string(),
        challengeId: 77,
        __v: 0,
        updated_at: String::new(),
        created_at: String::new(),
        challenge_date: String::new(),
        goals: [
            (0, 0, "red".to_string()),
            (0, 0, "red".to_string()),
            (0, 0, "red".to_string()),
            (0, 0, "red".to_string()),
            (0, 0, "red".to_string()),
        ],
        robots: [
            (0, 0, "red".to_string()),
            (0, 0, "green".to_string()),
            (0, 0, "blue".to_string()),
            (0, 0, "yellow".to_string()),
        ],
    }
}

#[test]
fn entry_of_a_solution() {
    let b = board(Position::new(4, 1), Color::R);
    let e = solution_entry(&b, &vec![(Color::R, Direction::Right), (Color::G, Direction::Down)]);
    assert_eq!(e.goal, (1, 4, "red".to_string()));
    assert_eq!(e.goalColor, "red");
    assert_eq!(e.solution, vec!["red", "right", "green", "down"]);
}

#[test]
fn entry_of_an_empty_solution() {
    let b = board(Position::new(7, 2), Color::Y);
    let e = solution_entry(&b, &vec![]);
    assert_eq!(e.goal, (2, 7, "yellow".to_string()));
    assert_eq!(e.goalColor, "yellow");
    assert!(e.solution.is_empty());
}

#[test]
fn submission_of_two_boards() {
    let boards = vec![board(Position::new(4, 1), Color::R), board(Position::new(3, 9), Color::B)];
    let solutions = vec![
        vec![(Color::R, Direction::Right)],
        vec![(Color::B, Direction::Up), (Color::Y, Direction::Left), (Color::B, Direction::Down)],
    ];
    let s = build_submission(&config(), &boards, &solutions);
    assert_eq!(s.remainingPuzzle, 0);
    assert_eq!(s.totalMoves, 4);
    assert_eq!(s.config, "01122130");
    assert_eq!(s.challengeId, 77);
    assert_eq!(s.name, "not_a_bot");
    assert_eq!(s.store.len(), 2);
    assert_eq!(s.store[0].goal, (9, 3, "blue".to_string()));
    assert_eq!(s.store[0].solution, vec!["blue", "up", "yellow", "left", "blue", "down"]);
    assert_eq!(s.store[1].goal, (1, 4, "red".to_string()));
    assert_eq!(s.store[1].goalColor, "red");
    assert_eq!(s.store[1].solution, vec!["red", "right"]);
}
