use robot_reboot::pieces::{str_equals, Color, Direction, Position};

#[test]
fn direction_names() {
    assert_eq!(Direction::Up.as_str(), "up");
    assert_eq!(Direction::Down.as_str(), "down");
    assert_eq!(Direction::Left.as_str(), "left");
    assert_eq!(Direction::Right.as_str(), "right");
}

#[test]
fn color_names() {
    assert_eq!(Color::R.as_str(), "red");
    assert_eq!(Color::G.as_str(), "green");
    assert_eq!(Color::B.as_str(), "blue");
    assert_eq!(Color::Y.as_str(), "yellow");
}

#[test]
fn color_from_names() {
    assert_eq!(Color::from_str("red"), Color::R);
    assert_eq!(Color::from_str("green"), Color::G);
    assert_eq!(Color::from_str("blue"), Color::B);
    assert_eq!(Color::from_str("yellow"), Color::Y);
    assert_eq!(Color::from_name("purple"), None);
    assert_eq!(Color::from_name("Red"), None);
    assert_eq!(Color::from_name(""), None);
}

#[test]
fn color_name_roundtrip() {
    for c in [Color::R, Color::G, Color::B, Color::Y] {
        assert_eq!(Color::from_str(c.as_str()), c);
    }
}

#[test]
fn color_slots() {
    assert_eq!(Color::R.index(), 0);
    assert_eq!(Color::G.index(), 1);
    assert_eq!(Color::B.index(), 2);
    assert_eq!(Color::Y.index(), 3);
}

#[test]
fn string_equality() {
    assert!(str_equals("abc", "abc"));
    assert!(!str_equals("abc", "abd"));
    assert!(!str_equals("abc", "ab"));
    assert!(str_equals("", ""));
}

#[test]
fn position_new() {
    let p = Position::new(3, 9);
    assert_eq!(p.x, 3);
    assert_eq!(p.y, 9);
}
