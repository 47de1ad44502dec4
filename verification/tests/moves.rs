use robot_reboot::board::{Board, WALLS};
use robot_reboot::pieces::{Color, Direction, Position};
use robot_reboot::state::State;

fn start_state(board: &Board) -> State {
    State { parent_id: 0, color: Color::R, dir: Direction::Up, positions: board.starts }
}

#[test]
fn hard_puzzle_layout() {
    let b = Board::hard_puzzle();
    let v: Vec<usize> = (0..WALLS).filter(|&k| b.borders_v[k]).collect();
    let h: Vec<usize> = (0..WALLS).filter(|&k| b.borders_h[k]).collect();
    assert_eq!(
        v,
        vec![4, 13, 18, 26, 31, 43, 52, 53, 80, 93, 102, 111, 113, 126, 128, 146, 156, 167, 175, 201, 209, 210, 218, 228, 235]
    );
    assert_eq!(
        h,
        vec![4, 9, 17, 28, 40, 45, 65, 95, 103, 108, 111, 113, 115, 126, 128, 138, 148, 160, 165, 186, 189, 211, 223, 230, 235]
    );
    assert_eq!(b.goal, Position::new(9, 12));
    assert_eq!(b.goal_color, Color::B);
    assert_eq!(
        b.starts,
        [Position::new(2, 14), Position::new(0, 3), Position::new(11, 2), Position::new(2, 1)]
    );
}

#[test]
fn slides_on_hard_puzzle() {
    let b = Board::hard_puzzle();
    let s = start_state(&b);
    let expected = [
        [(2, 14), (2, 15), (2, 14), (13, 14)],
        [(0, 0), (0, 4), (0, 3), (0, 3)],
        [(11, 0), (11, 2), (11, 2), (15, 2)],
        [(2, 0), (2, 1), (0, 1), (2, 1)],
    ];
    let dirs = [Direction::Up, Direction::Down, Direction::Left, Direction::Right];
    for c in 0..4 {
        for d in 0..4 {
            let to = s.new_position(s.positions[c], dirs[d], &b);
            assert_eq!(to, Position::new(expected[c][d].0, expected[c][d].1), "robot {} dir {}", c, d);
        }
    }
}

#[test]
fn free_cells() {
    let b = Board::hard_puzzle();
    let s = start_state(&b);
    assert!(!s.is_free(Position::new(2, 14)));
    assert!(!s.is_free(Position::new(2, 1)));
    assert!(s.is_free(Position::new(2, 2)));
}

#[test]
fn positions_by_colour() {
    let b = Board::hard_puzzle();
    let mut s = start_state(&b);
    assert_eq!(s.get_position(Color::G), Position::new(0, 3));
    s.set_position(Color::G, Position::new(5, 5));
    assert_eq!(s.get_position(Color::G), Position::new(5, 5));
    assert_eq!(s.get_position(Color::R), Position::new(2, 14));
}

#[test]
fn turn_moves_one_robot() {
    let b = Board::hard_puzzle();
    let s = start_state(&b);
    let next = s.turn(7, Color::R, Direction::Right, &b).unwrap();
    assert_eq!(next.parent_id, 7);
    assert_eq!(next.color, Color::R);
    assert_eq!(next.dir, Direction::Right);
    assert_eq!(
        next.positions,
        [Position::new(13, 14), Position::new(0, 3), Position::new(11, 2), Position::new(2, 1)]
    );
}

#[test]
fn turn_blocked_robot() {
    let b = Board::hard_puzzle();
    let s = start_state(&b);
    assert!(s.turn(0, Color::R, Direction::Up, &b).is_none());
    assert!(s.turn(0, Color::B, Direction::Left, &b).is_none());
}

#[test]
fn same_move_twice_changes_nothing() {
    let b = Board::hard_puzzle();
    let s = start_state(&b);
    let once = s.turn(0, Color::Y, Direction::Left, &b).unwrap();
    assert!(once.turn(1, Color::Y, Direction::Left, &b).is_none());
}

#[test]
fn robots_block_each_other() {
    let b = Board {
        borders_v: [false; WALLS],
        borders_h: [false; WALLS],
        goal: Position::new(0, 0),
        goal_color: Color::R,
        starts: [Position::new(0, 5), Position::new(9, 5), Position::new(3, 0), Position::new(3, 15)],
    };
    let s = start_state(&b);
    assert_eq!(s.new_position(Position::new(0, 5), Direction::Right, &b), Position::new(8, 5));
    assert_eq!(s.new_position(Position::new(9, 5), Direction::Left, &b), Position::new(1, 5));
    assert_eq!(s.new_position(Position::new(3, 0), Direction::Down, &b), Position::new(3, 14));
    assert_eq!(s.new_position(Position::new(3, 15), Direction::Up, &b), Position::new(3, 1));
}

#[test]
fn off_board_robot_against_the_edge() {
    let b = Board::hard_puzzle();
    let mut s = start_state(&b);
    s.positions[3] = Position::new(20, 0);
    assert_eq!(s.new_position(Position::new(20, 0), Direction::Up, &b), Position::new(20, 0));
    assert_eq!(s.new_position(Position::new(0, 30), Direction::Left, &b), Position::new(0, 30));
    assert_eq!(s.new_position(Position::new(40, 15), Direction::Down, &b), Position::new(40, 15));
    assert!(s.turn(0, Color::Y, Direction::Up, &b).is_none());
    let next = s.turn(0, Color::R, Direction::Right, &b).unwrap();
    assert_eq!(next.positions[0], Position::new(13, 14));
    assert_eq!(next.positions[3], Position::new(20, 0));
}
