use robot_reboot::board::WALLS;
use robot_reboot::config::{parse_decimal_u64, JsonConfig};
use robot_reboot::pieces::{Color, Position};

fn sample_config() -> JsonConfig {
    JsonConfig {
        _id: "5d5c5e5f".to_string(),
        config: "01122130".to_string(),
        challengeId: 42,
        __v: 0,
        updated_at: "2019-08-20T20:00:00.000Z".to_string(),
        created_at: "2019-08-20T20:00:00.000Z".to_string(),
        challenge_date: "2019-08-20T20:00:00.000Z".to_string(),
        goals: [
            (1, 4, "red".to_string()),
            (5, 11, "green".to_string()),
            (10, 2, "blue".to_string()),
            (13, 9, "yellow".to_string()),
            (6, 6, "red".to_string()),
        ],
        robots: [
            (0, 0, "red".to_string()),
            (0, 15, "green".to_string()),
            (15, 0, "blue".to_string()),
            (15, 15, "yellow".to_string()),
        ],
    }
}

#[test]
fn decimal_numbers() {
    assert_eq!(parse_decimal_u64("123"), Some(123));
    assert_eq!(parse_decimal_u64("0"), Some(0));
    assert_eq!(parse_decimal_u64("007"), Some(7));
    assert_eq!(parse_decimal_u64("+7"), Some(7));
    assert_eq!(parse_decimal_u64("18446744073709551615"), Some(u64::MAX));
}

#[test]
fn not_decimal_numbers() {
    assert_eq!(parse_decimal_u64(""), None);
    assert_eq!(parse_decimal_u64("+"), None);
    assert_eq!(parse_decimal_u64("-1"), None);
    assert_eq!(parse_decimal_u64("12a"), None);
    assert_eq!(parse_decimal_u64(" 12"), None);
    assert_eq!(parse_decimal_u64("++1"), None);
    assert_eq!(parse_decimal_u64("18446744073709551616"), None);
    assert_eq!(parse_decimal_u64("99999999999999999999x"), None);
}

#[test]
fn board_config_digits() {
    let c = sample_config();
    assert_eq!(c.parse_board_config(), [(0, 1), (1, 2), (2, 1), (3, 0)]);
    let mut c2 = sample_config();
    c2.config = "2".to_string();
    assert_eq!(c2.parse_board_config(), [(0, 0), (0, 0), (0, 0), (0, 2)]);
}

#[test]
fn tiles_of_the_centre() {
    let cfg = [(0, 1), (1, 2), (2, 1), (3, 0)];
    assert_eq!(JsonConfig::get_tile(&cfg, Position::new(7, 7)), 1);
    assert_eq!(JsonConfig::get_tile(&cfg, Position::new(8, 7)), 2);
    assert_eq!(JsonConfig::get_tile(&cfg, Position::new(7, 8)), 4);
    assert_eq!(JsonConfig::get_tile(&cfg, Position::new(8, 8)), 3);
}

#[test]
fn tiles_of_a_quarter() {
    let cfg = [(0, 0), (0, 0), (0, 0), (0, 0)];
    // top-left quarter: as stored
    assert_eq!(JsonConfig::get_tile(&cfg, Position::new(2, 0)), 2);
    assert_eq!(JsonConfig::get_tile(&cfg, Position::new(5, 1)), 8);
    assert_eq!(JsonConfig::get_tile(&cfg, Position::new(0, 0)), 0);
    // top-right quarter: the stored (2, 0) lands on (15, 2), turned once
    assert_eq!(JsonConfig::get_tile(&cfg, Position::new(15, 2)), 3);
    // bottom-right quarter: the stored (5, 1) lands on (10, 14), turned twice
    assert_eq!(JsonConfig::get_tile(&cfg, Position::new(10, 14)), 6);
    // bottom-left quarter: the stored (2, 0) lands on (0, 13), turned back once
    assert_eq!(JsonConfig::get_tile(&cfg, Position::new(0, 13)), 1);
}

#[test]
fn well_formed_configs() {
    assert!(sample_config().is_well_formed());
    let mut c = sample_config();
    c.config = "01122140".to_string();
    assert!(!c.is_well_formed());
    let mut c = sample_config();
    c.config = "0112213x".to_string();
    assert!(!c.is_well_formed());
    let mut c = sample_config();
    c.goals[2].2 = "purple".to_string();
    assert!(!c.is_well_formed());
    let mut c = sample_config();
    c.robots[3].2 = "Yellow".to_string();
    assert!(!c.is_well_formed());
}

#[test]
fn boards_of_the_challenge() {
    let c = sample_config();
    let boards = c.get_boards();
    assert_eq!(boards.len(), 5);
    let goals = [(6, 6, Color::R), (9, 13, Color::Y), (2, 10, Color::B), (11, 5, Color::G), (4, 1, Color::R)];
    for (b, (x, y, color)) in boards.iter().zip(goals.iter()) {
        assert_eq!(b.goal, Position::new(*x, *y));
        assert_eq!(b.goal_color, *color);
        assert_eq!(
            b.starts,
            [Position::new(0, 0), Position::new(15, 0), Position::new(0, 15), Position::new(15, 15)]
        );
        let v: Vec<usize> = (0..WALLS).filter(|&k| b.borders_v[k]).collect();
        let h: Vec<usize> = (0..WALLS).filter(|&k| b.borders_h[k]).collect();
        assert_eq!(
            v,
            vec![4, 10, 18, 23, 31, 44, 52, 80, 83, 93, 103, 111, 112, 113, 126, 127, 128, 135, 146, 156, 163, 167, 190, 200, 204, 222, 228, 236]
        );
        assert_eq!(
            h,
            vec![4, 10, 17, 24, 41, 45, 65, 88, 95, 108, 111, 112, 113, 114, 126, 127, 128, 136, 139, 147, 174, 176, 201, 209, 211, 219, 230, 236]
        );
    }
}

#[test]
fn later_robot_entry_wins() {
    let mut c = sample_config();
    c.robots[3] = (4, 5, "red".to_string());
    let boards = c.get_boards();
    assert_eq!(
        boards[0].starts,
        [Position::new(5, 4), Position::new(15, 0), Position::new(0, 15), Position::new(0, 0)]
    );
}

#[test]
fn centre_tiles_need_no_quarter() {
    let cfg = [(9, 9); 4];
    assert_eq!(JsonConfig::get_tile(&cfg, Position::new(7, 7)), 1);
    assert_eq!(JsonConfig::get_tile(&cfg, Position::new(8, 7)), 2);
    assert_eq!(JsonConfig::get_tile(&cfg, Position::new(8, 8)), 3);
    assert_eq!(JsonConfig::get_tile(&cfg, Position::new(7, 8)), 4);
}

#[test]
fn tile_reads_only_its_quarter() {
    let cfg = [(0, 0), (9, 9), (9, 9), (9, 9)];
    assert_eq!(JsonConfig::get_tile(&cfg, Position::new(2, 0)), 2);
    assert_eq!(JsonConfig::get_tile(&cfg, Position::new(5, 1)), 8);
}
