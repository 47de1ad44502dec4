//! A state packed into nine bytes: one byte per robot, four bytes of parent
//! index and one byte for the move.
use vstd::prelude::*;
use crate::board::all_on_board;
use crate::pieces::{
    color_at, color_index, direction_at, direction_index, Color, Direction, Position,
};
use crate::state::State;

verus! {

/// The byte that stores a cell: column in the low four bits, row in the high four.
pub open spec fn cell_code(p: Position) -> int {
    (p.x % 16) as int + 16 * (p.y % 16) as int
}

/// The 32-bit number that stands for a configuration: one cell byte per
/// robot, red in the lowest byte, yellow in the highest.
pub open spec fn positions_key(ps: Seq<Position>) -> int {
    cell_code(ps[0]) + 256 * cell_code(ps[1]) + 65536 * cell_code(ps[2]) + 16777216 * cell_code(
        ps[3],
    )
}

/// The nine bytes that store a state.
pub open spec fn encode(s: State) -> Seq<u8> {
    seq![
        cell_code(s.positions@[0]) as u8,
        cell_code(s.positions@[1]) as u8,
        cell_code(s.positions@[2]) as u8,
        cell_code(s.positions@[3]) as u8,
        (s.parent_id % 256) as u8,
        ((s.parent_id / 256) % 256) as u8,
        ((s.parent_id / 65536) % 256) as u8,
        ((s.parent_id / 16777216) % 256) as u8,
        (4 * color_index(s.color) + direction_index(s.dir)) as u8,
    ]
}

/// The cell that a cell byte stands for.
pub open spec fn cell_of(b: u8) -> Position {
    Position { x: (b % 16) as u8, y: (b / 16) as u8 }
}

/// The robots that nine stored bytes stand for.
pub open spec fn decoded_positions(d: Seq<u8>) -> Seq<Position> {
    seq![cell_of(d[0]), cell_of(d[1]), cell_of(d[2]), cell_of(d[3])]
}

/// The parent index that nine stored bytes stand for.
pub open spec fn decoded_parent(d: Seq<u8>) -> int {
    d[4] + 256 * d[5] + 65536 * d[6] + 16777216 * d[7]
}

/// The colour of the move that nine stored bytes stand for.
pub open spec fn decoded_color(d: Seq<u8>) -> Color {
    color_at(((d[8] % 16) / 4) as int)
}

/// The direction of the move that nine stored bytes stand for.
pub open spec fn decoded_dir(d: Seq<u8>) -> Direction {
    direction_at((d[8] % 4) as int)
}

/// The key of the configuration that nine stored bytes stand for.
pub open spec fn decoded_key(d: Seq<u8>) -> int {
    d[0] + 256 * d[1] + 65536 * d[2] + 16777216 * d[3]
}

/// A state packed into nine bytes.
pub struct CompressedState {
    pub data: [u8; 9],
}

proof fn lemma_cell_byte(x: u8, y: u8)
    ensures
        ((x & 15u8) | (y << 4u8)) as int == (x % 16) as int + 16 * (y % 16) as int,
{
    assert(((x & 15u8) | (y << 4u8)) as int == (x % 16) as int + 16 * (y % 16) as int)
        by (bit_vector);
}

proof fn lemma_id_bytes(p: usize)
    ensures
        ((p >> 0usize) & 0xFFusize) as u8 == (p % 256) as u8,
        ((p >> 8usize) & 0xFFusize) as u8 == ((p / 256) % 256) as u8,
        ((p >> 16usize) & 0xFFusize) as u8 == ((p / 65536) % 256) as u8,
        ((p >> 24usize) & 0xFFusize) as u8 == ((p / 16777216) % 256) as u8,
{
    assert(((p >> 0usize) & 0xFFusize) as u8 == (p % 256) as u8) by (bit_vector);
    assert(((p >> 8usize) & 0xFFusize) as u8 == ((p / 256) % 256) as u8) by (bit_vector);
    assert(((p >> 16usize) & 0xFFusize) as u8 == ((p / 65536) % 256) as u8) by (bit_vector);
    assert(((p >> 24usize) & 0xFFusize) as u8 == ((p / 16777216) % 256) as u8) by (bit_vector);
}

proof fn lemma_join_u32(a: u8, b: u8, c: u8, d: u8)
    ensures
        (((a as u32) << 0u32) | ((b as u32) << 8u32) | ((c as u32) << 16u32) | ((d as u32)
            << 24u32)) as int == a + 256 * b + 65536 * c + 16777216 * d,
{
    assert((((a as u32) << 0u32) | ((b as u32) << 8u32) | ((c as u32) << 16u32) | ((d as u32)
        << 24u32)) as int == a + 256 * b + 65536 * c + 16777216 * d) by (bit_vector);
}

proof fn lemma_join_usize(a: u8, b: u8, c: u8, d: u8)
    ensures
        (((a as usize) << 0usize) | ((b as usize) << 8usize) | ((c as usize) << 16usize) | ((
        d as usize) << 24usize)) as int == a + 256 * b + 65536 * c + 16777216 * d,
{
    assert((((a as usize) << 0usize) | ((b as usize) << 8usize) | ((c as usize) << 16usize) | ((
    d as usize) << 24usize)) as int == a + 256 * b + 65536 * c + 16777216 * d) by (bit_vector);
}

proof fn lemma_split_byte(b: u8)
    ensures
        b & 0xFu8 == b % 16,
        b >> 4u8 == b / 16,
        (b & 0xFu8) >> 2u8 == (b % 16) / 4,
        b & 3u8 == b % 4,
{
    assert(b & 0xFu8 == b % 16) by (bit_vector);
    assert(b >> 4u8 == b / 16) by (bit_vector);
    assert((b & 0xFu8) >> 2u8 == (b % 16) / 4) by (bit_vector);
    assert(b & 3u8 == b % 4) by (bit_vector);
}

impl CompressedState {
    /// Packs a state.
    pub fn from(state: &State) -> (r: Self)
        ensures
            r.data@ == encode(*state),
    {
        let r = state.positions[0];
        let g = state.positions[1];
        let b = state.positions[2];
        let y = state.positions[3];
        let b0 = (r.x & 0xF) | (r.y << 4);
        let b1 = (g.x & 0xF) | (g.y << 4);
        let b2 = (b.x & 0xF) | (b.y << 4);
        let b3 = (y.x & 0xF) | (y.y << 4);

        let b4 = ((state.parent_id >> 0) & 0xFF) as u8;
        let b5 = ((state.parent_id >> 8) & 0xFF) as u8;
        let b6 = ((state.parent_id >> 16) & 0xFF) as u8;
        let b7 = ((state.parent_id >> 24) & 0xFF) as u8;

        let color: u8 = match state.color {
            Color::R => 0,
            Color::G => 1,
            Color::B => 2,
            Color::Y => 3,
        };
        let direction: u8 = match state.dir {
            Direction::Up => 0,
            Direction::Down => 1,
            Direction::Left => 2,
            Direction::Right => 3,
        };
        let b8 = (color << 2) | direction;
        proof {
            lemma_cell_byte(r.x, r.y);
            lemma_cell_byte(g.x, g.y);
            lemma_cell_byte(b.x, b.y);
            lemma_cell_byte(y.x, y.y);
            lemma_id_bytes(state.parent_id);
            assert((color << 2u8) | direction == 4 * color + direction) by (bit_vector)
                requires
                    color < 4,
                    direction < 4,
            ;
        }
        let res = CompressedState { data: [b0, b1, b2, b3, b4, b5, b6, b7, b8] };
        assert(res.data@ =~= encode(*state));
        res
    }

    /// The key of the stored configuration.
    pub fn get_comp_position(&self) -> (r: u32)
        ensures
            r == decoded_key(self.data@),
    {
        proof {
            lemma_join_u32(self.data[0], self.data[1], self.data[2], self.data[3]);
        }
        ((self.data[0] as u32) << 0) | ((self.data[1] as u32) << 8) | ((self.data[2] as u32) << 16)
            | ((self.data[3] as u32) << 24)
    }

    /// The stored parent index.
    pub fn get_parent_id(&self) -> (r: usize)
        ensures
            r == decoded_parent(self.data@),
    {
        proof {
            lemma_join_usize(self.data[4], self.data[5], self.data[6], self.data[7]);
        }
        ((self.data[4] as usize) << 0) | ((self.data[5] as usize) << 8) | ((self.data[6] as usize)
            << 16) | ((self.data[7] as usize) << 24)
    }

    /// Unpacks the stored state.
    pub fn into_state(&self) -> (s: State)
        ensures
            s.positions@ == decoded_positions(self.data@),
            s.parent_id == decoded_parent(self.data@),
            s.color == decoded_color(self.data@),
            s.dir == decoded_dir(self.data@),
    {
        proof {
            lemma_split_byte(self.data[0]);
            lemma_split_byte(self.data[1]);
            lemma_split_byte(self.data[2]);
            lemma_split_byte(self.data[3]);
            lemma_split_byte(self.data[8]);
        }
        let rx = self.data[0] & 0xF;
        let ry = self.data[0] >> 4;
        let gx = self.data[1] & 0xF;
        let gy = self.data[1] >> 4;
        let bx = self.data[2] & 0xF;
        let by = self.data[2] >> 4;
        let yx = self.data[3] & 0xF;
        let yy = self.data[3] >> 4;
        let parent_id = self.get_parent_id();
        let color = match (self.data[8] & 0xF) >> 2 {
            0 => Color::R,
            1 => Color::G,
            2 => Color::B,
            _ => Color::Y,
        };
        let direction = match self.data[8] & 0b11 {
            0 => Direction::Up,
            1 => Direction::Down,
            2 => Direction::Left,
            _ => Direction::Right,
        };
        let s = State {
            parent_id: parent_id,
            color: color,
            dir: direction,
            positions: [
                Position::new(rx, ry),
                Position::new(gx, gy),
                Position::new(bx, by),
                Position::new(yx, yy),
            ],
        };
        assert(s.positions@ =~= decoded_positions(self.data@));
        s
    }
}

/// Unpacking a packed state gives the state back, when its robots stand on
/// the board and its parent index fits in 32 bits.
pub proof fn lemma_pack_roundtrip(s: State)
    requires
        all_on_board(s.positions@),
        s.parent_id < 0x1_0000_0000,
    ensures
        decoded_positions(encode(s)) == s.positions@,
        decoded_parent(encode(s)) == s.parent_id,
        decoded_color(encode(s)) == s.color,
        decoded_dir(encode(s)) == s.dir,
        decoded_key(encode(s)) == positions_key(s.positions@),
{
    let ps = s.positions@;
    assert(ps[0].on_board() && ps[1].on_board() && ps[2].on_board() && ps[3].on_board());
    assert(decoded_positions(encode(s)) =~= ps);
    let p = s.parent_id as int;
    assert(decoded_parent(encode(s)) == p) by (nonlinear_arith)
        requires
            0 <= p < 0x1_0000_0000,
            encode(s)[4] == p % 256,
            encode(s)[5] == (p / 256) % 256,
            encode(s)[6] == (p / 65536) % 256,
            encode(s)[7] == (p / 16777216) % 256,
    ;
}

proof fn lemma_digits_unique(a: int, b: int, c: int, d: int, e: int, f: int, g: int, h: int, base: int)
    requires
        base > 0,
        0 <= a < base,
        0 <= e < base,
        0 <= b,
        0 <= f,
        a + base * (b + base * (c + base * d)) == e + base * (f + base * (g + base * h)),
    ensures
        a == e,
        b + base * (c + base * d) == f + base * (g + base * h),
{
    let u = b + base * (c + base * d);
    let v = f + base * (g + base * h);
    assert(a == e && u == v) by (nonlinear_arith)
        requires
            base > 0,
            0 <= a < base,
            0 <= e < base,
            a + base * u == e + base * v,
    ;
}

proof fn lemma_cell_code_unique(p: Position, q: Position)
    requires
        p.on_board(),
        q.on_board(),
        cell_code(p) == cell_code(q),
    ensures
        p == q,
{
}

/// Two configurations of robots on the board with the same key are the same.
pub proof fn lemma_key_injective(a: Seq<Position>, b: Seq<Position>)
    requires
        all_on_board(a),
        all_on_board(b),
        positions_key(a) == positions_key(b),
    ensures
        a == b,
{
    assert(a[0].on_board() && a[1].on_board() && a[2].on_board() && a[3].on_board());
    assert(b[0].on_board() && b[1].on_board() && b[2].on_board() && b[3].on_board());
    let (a0, a1, a2, a3) = (cell_code(a[0]), cell_code(a[1]), cell_code(a[2]), cell_code(a[3]));
    let (b0, b1, b2, b3) = (cell_code(b[0]), cell_code(b[1]), cell_code(b[2]), cell_code(b[3]));
    assert(a0 + 256 * (a1 + 256 * (a2 + 256 * a3)) == b0 + 256 * (b1 + 256 * (b2 + 256 * b3)));
    lemma_digits_unique(a0, a1, a2, a3, b0, b1, b2, b3, 256);
    lemma_digits_unique(a1, a2, a3, 0, b1, b2, b3, 0, 256);
    lemma_digits_unique(a2, a3, 0, 0, b2, b3, 0, 0, 256);
    lemma_cell_code_unique(a[0], b[0]);
    lemma_cell_code_unique(a[1], b[1]);
    lemma_cell_code_unique(a[2], b[2]);
    lemma_cell_code_unique(a[3], b[3]);
    assert(a =~= b);
}

/// The key of a configuration fits in 32 bits.
pub proof fn lemma_key_bounds(ps: Seq<Position>)
    requires
        ps.len() == 4,
    ensures
        0 <= positions_key(ps) < 0x1_0000_0000,
{
}

} // verus!
