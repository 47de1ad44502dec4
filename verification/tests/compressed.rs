use robot_reboot::compressed::CompressedState;
use robot_reboot::pieces::{Color, Direction, Position};
use robot_reboot::state::State;

fn sample() -> State {
    State {
        parent_id: 0x0102_0304,
        color: Color::B,
        dir: Direction::Left,
        positions: [
            Position::new(2, 14),
            Position::new(0, 3),
            Position::new(11, 2),
            Position::new(2, 1),
        ],
    }
}

#[test]
fn packs_into_nine_bytes() {
    let c = CompressedState::from(&sample());
    assert_eq!(c.data, [226, 48, 43, 18, 4, 3, 2, 1, 10]);
}

#[test]
fn key_of_configuration() {
    let c = CompressedState::from(&sample());
    assert_eq!(c.get_comp_position(), 304820450);
}

#[test]
fn parent_index() {
    let c = CompressedState::from(&sample());
    assert_eq!(c.get_parent_id(), 0x0102_0304);
}

#[test]
fn unpack_roundtrip() {
    let s = sample();
    let back = CompressedState::from(&s).into_state();
    assert_eq!(back.parent_id, s.parent_id);
    assert_eq!(back.color, s.color);
    assert_eq!(back.dir, s.dir);
    assert_eq!(back.positions, s.positions);
}

#[test]
fn unpack_every_move() {
    let colors = [Color::R, Color::G, Color::B, Color::Y];
    let dirs = [Direction::Up, Direction::Down, Direction::Left, Direction::Right];
    for c in colors {
        for d in dirs {
            let mut s = sample();
            s.color = c;
            s.dir = d;
            let back = CompressedState::from(&s).into_state();
            assert_eq!(back.color, c);
            assert_eq!(back.dir, d);
        }
    }
}

#[test]
fn parent_index_keeps_low_32_bits() {
    let mut s = sample();
    s.parent_id = 0x1_0000_0005;
    let c = CompressedState::from(&s);
    assert_eq!(c.get_parent_id(), 5);
}

#[test]
fn corner_cells() {
    let mut s = sample();
    s.positions = [
        Position::new(0, 0),
        Position::new(15, 0),
        Position::new(0, 15),
        Position::new(15, 15),
    ];
    let c = CompressedState::from(&s);
    assert_eq!(&c.data[0..4], &[0, 15, 240, 255]);
    assert_eq!(c.get_comp_position(), 0xFFF0_0F00);
    assert_eq!(c.into_state().positions, s.positions);
}
