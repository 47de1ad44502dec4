//! The challenge as the puzzle server describes it, and how the boards are
//! assembled from it.
use vstd::prelude::*;
use crate::board::{Board, WALLS};
use crate::pieces::{color_at, color_named, Color, Position, CELLS};
use crate::quarters::{lemma_tile_bounded, quadrant, tile_readable, valid_choice, tile_value, valid_config, BOARDS};

verus! {

/// Whether `c` is a decimal digit.
pub open spec fn is_digit(c: char) -> bool {
    '0' <= c && c <= '9'
}

/// The number that a string of decimal digits spells.
pub open spec fn digits_value(s: Seq<char>) -> int
    decreases s.len(),
{
    if s.len() == 0 {
        0
    } else {
        10 * digits_value(s.drop_last()) + (s.last() as int - '0' as int)
    }
}

/// Every character of `s` is a decimal digit.
pub open spec fn all_digits(s: Seq<char>) -> bool {
    forall|i: int| 0 <= i < s.len() ==> is_digit(#[trigger] s[i])
}

/// What follows the optional leading `+`.
pub open spec fn decimal_body(s: Seq<char>) -> Seq<char> {
    if s.len() > 0 && s[0] == '+' {
        s.drop_first()
    } else {
        s
    }
}

/// The unsigned 64-bit number that `s` spells in decimal, the way the
/// standard library reads it: an optional `+`, then at least one digit, and
/// nothing else; `None` when `s` is not such a string or the number does not
/// fit in 64 bits.
pub open spec fn decimal_u64(s: Seq<char>) -> Option<u64> {
    let body = decimal_body(s);
    if body.len() > 0 && all_digits(body) && digits_value(body) <= u64::MAX {
        Some(digits_value(body) as u64)
    } else {
        None
    }
}

/// Reads an unsigned 64-bit number written in decimal.
pub fn parse_decimal_u64(s: &str) -> (r: Option<u64>)
    ensures
        r == decimal_u64(s@),
{
    let n = s.unicode_len();
    let mut i: usize = 0;
    if n > 0 && s.get_char(0) == '+' {
        i = 1;
    }
    let ghost body = s@.subrange(i as int, n as int);
    proof {
        if i == 1 {
            assert(body =~= s@.drop_first());
        } else {
            assert(body =~= s@);
        }
    }
    if i == n {
        return None;
    }
    let start = i;
    let mut value: u64 = 0;
    while i < n
        invariant
            n == s@.len(),
            start <= i <= n,
            start < n,
            body == s@.subrange(start as int, n as int),
            body == decimal_body(s@),
            forall|j: int| start <= j < i ==> is_digit(#[trigger] s@[j]),
            value == digits_value(s@.subrange(start as int, i as int)),
        decreases n - i,
    {
        let c = s.get_char(i);
        proof {
            assert(s@.subrange(start as int, i + 1).drop_last() =~= s@.subrange(start as int, i as int));
        }
        if c < '0' || c > '9' {
            proof {
                assert(body[i - start] == c);
                assert(!is_digit(body[i - start]));
            }
            return None;
        }
        let d = (c as u32 - '0' as u32) as u64;
        proof {
            assert(s@.subrange(start as int, i + 1).last() == c);
            assert(s@.subrange(start as int, i + 1) =~= body.subrange(0, i + 1 - start));
        }
        match value.checked_mul(10) {
            Some(v) => match v.checked_add(d) {
                Some(w) => {
                    value = w;
                },
                None => {
                    proof {
                        lemma_overflow(s@.subrange(start as int, i + 1), body);
                    }
                    return None;
                },
            },
            None => {
                proof {
                    lemma_overflow(s@.subrange(start as int, i + 1), body);
                }
                return None;
            },
        }
        i = i + 1;
    }
    proof {
        assert(s@.subrange(start as int, n as int) =~= body);
    }
    Some(value)
}

/// When a prefix already spells more than fits in 64 bits, the whole string
/// is no 64-bit number.
proof fn lemma_overflow(pre: Seq<char>, s: Seq<char>)
    requires
        pre.len() <= s.len(),
        pre =~= s.subrange(0, pre.len() as int),
        digits_value(pre) > u64::MAX,
    ensures
        !(all_digits(s) && digits_value(s) <= u64::MAX),
{
    if all_digits(s) {
        lemma_digits_grow(pre, s);
    }
}

/// A string of digits spells at least what any of its prefixes spells.
proof fn lemma_digits_grow(pre: Seq<char>, s: Seq<char>)
    requires
        pre.len() <= s.len(),
        pre =~= s.subrange(0, pre.len() as int),
        forall|i: int| 0 <= i < s.len() ==> is_digit(#[trigger] s[i]),
    ensures
        digits_value(pre) <= digits_value(s),
    decreases s.len(),
{
    if pre.len() < s.len() {
        assert(pre =~= s.drop_last().subrange(0, pre.len() as int));
        lemma_digits_grow(pre, s.drop_last());
        lemma_digits_nonneg(s.drop_last());
        assert(is_digit(s.last()));
    } else {
        assert(pre =~= s);
    }
}

proof fn lemma_digits_nonneg(s: Seq<char>)
    requires
        forall|i: int| 0 <= i < s.len() ==> is_digit(#[trigger] s[i]),
    ensures
        digits_value(s) >= 0,
    decreases s.len(),
{
    if s.len() > 0 {
        lemma_digits_nonneg(s.drop_last());
    }
}

/// `100` to the power `i`.
pub open spec fn hundred_pow(i: nat) -> nat
    decreases i,
{
    if i == 0 {
        1
    } else {
        100 * hundred_pow((i - 1) as nat)
    }
}

/// The quarter boards that the number `n` chooses: read from the right, each
/// pair of decimal digits picks one quarter, the last pair the bottom-right
/// quarter; the left digit of a pair is the colour, the right one the variant.
pub open spec fn board_config_of(n: u64) -> Seq<(u8, u8)> {
    Seq::new(
        4,
        |j: int|
            {
                let m = n as int / hundred_pow((3 - j) as nat) as int;
                (((m / 10) % 10) as u8, (m % 10) as u8)
            },
    )
}

/// The challenge as the puzzle server describes it.
#[allow(non_snake_case)]
pub struct JsonConfig {
    pub _id: String,
    /// The quarter boards, as a decimal number (see `board_config_of`).
    pub config: String,
    pub challengeId: u64,
    pub __v: u64,
    pub updated_at: String,
    pub created_at: String,
    pub challenge_date: String,
    /// The goals, as `(row, column, colour)`.
    pub goals: [(u8, u8, String); 5],
    /// Where the robots start, as `(row, column, colour)`.
    pub robots: [(u8, u8, String); 4],
}

proof fn lemma_div_div(x: int, a: int)
    requires
        x >= 0,
        a > 0,
    ensures
        (x / a) / 10 / 10 == x / (100 * a),
{
    vstd::arithmetic::div_mod::lemma_div_denominator(x, a, 10);
    vstd::arithmetic::div_mod::lemma_div_denominator(x, a * 10, 10);
    assert(a * 10 * 10 == 100 * a) by (nonlinear_arith);
}

proof fn lemma_hundred_pow_pos(i: nat)
    ensures
        hundred_pow(i) > 0,
    decreases i,
{
    if i > 0 {
        lemma_hundred_pow_pos((i - 1) as nat);
    }
}

/// For `x >= 0`: its last two decimal digits, and the rest.
proof fn lemma_two_digits(x: int)
    requires
        x >= 0,
    ensures
        x % 100 == 10 * ((x / 10) % 10) + x % 10,
        x / 100 == (x / 10) / 10,
{
    vstd::arithmetic::div_mod::lemma_mod_breakdown(x, 10, 10);
    vstd::arithmetic::div_mod::lemma_div_denominator(x, 10, 10);
}

/// The quarter-board choices read from `n` are eight decimal digits, and
/// written back one after the other they give the last eight digits of `n`:
/// nothing of `n` below its ninth digit is lost or read twice.
pub proof fn lemma_board_config_digits(n: u64)
    ensures
        forall|j: int| 0 <= j < 4 ==> (#[trigger] board_config_of(n)[j]).0 < 10 && board_config_of(n)[j].1 < 10,
        ({
            let c = board_config_of(n);
            (10 * c[0].0 + c[0].1) * 1_000_000 + (10 * c[1].0 + c[1].1) * 10_000 + (10 * c[2].0 + c[2].1)
                * 100 + (10 * c[3].0 + c[3].1) == n % 100_000_000
        }),
{
    let x = n as int;
    let c = board_config_of(n);
    assert(hundred_pow(0) == 1);
    assert(hundred_pow(1) == 100);
    assert(hundred_pow(2) == 10_000);
    assert(hundred_pow(3) == 1_000_000);
    let q1 = x / 100;
    let q2 = x / 10_000;
    let q3 = x / 1_000_000;
    vstd::arithmetic::div_mod::lemma_div_denominator(x, 100, 100);
    vstd::arithmetic::div_mod::lemma_div_denominator(x, 10_000, 100);
    assert(q2 == q1 / 100);
    assert(q3 == q2 / 100);
    lemma_two_digits(x);
    lemma_two_digits(q1);
    lemma_two_digits(q2);
    lemma_two_digits(q3);
    assert(x / 1 == x);
    assert(c[3].0 == (x / 10) % 10 && c[3].1 == x % 10);
    assert(c[2].0 == (q1 / 10) % 10 && c[2].1 == q1 % 10);
    assert(c[1].0 == (q2 / 10) % 10 && c[1].1 == q2 % 10);
    assert(c[0].0 == (q3 / 10) % 10 && c[0].1 == q3 % 10);
    vstd::arithmetic::div_mod::lemma_mod_breakdown(x, 100, 1_000_000);
    vstd::arithmetic::div_mod::lemma_mod_breakdown(q1, 100, 10_000);
    vstd::arithmetic::div_mod::lemma_mod_breakdown(q2, 100, 100);
    assert(x % 100_000_000 == 100 * (q1 % 1_000_000) + x % 100);
    assert(q1 % 1_000_000 == 100 * (q2 % 10_000) + q1 % 100);
    assert(q2 % 10_000 == 100 * (q3 % 100) + q2 % 100);
}

impl JsonConfig {
    /// The quarter boards that the `config` field chooses.
    pub open spec fn board_config(self) -> Seq<(u8, u8)> {
        board_config_of(decimal_u64(self.config@).unwrap())
    }

    /// Splits the `config` field, a decimal number, into the quarter boards it
    /// chooses. The field must be a decimal number that fits in 64 bits.
    pub fn parse_board_config(&self) -> (r: [(u8, u8); 4])
        requires
            decimal_u64(self.config@) is Some,
        ensures
            r@ == self.board_config(),
            forall|j: int| 0 <= j < 4 ==> (#[trigger] r@[j]).0 < 10 && r@[j].1 < 10,
            (10 * r@[0].0 + r@[0].1) * 1_000_000 + (10 * r@[1].0 + r@[1].1) * 10_000 + (10 * r@[2].0
                + r@[2].1) * 100 + (10 * r@[3].0 + r@[3].1) == decimal_u64(self.config@).unwrap()
                % 100_000_000,
    {
        let mut ret = [(0, 0); 4];
        let n = match parse_decimal_u64(self.config.as_str()) {
            Some(n) => n,
            None => {
                assert(false);
                0
            },
        };
        let mut c: u64 = n;
        let mut i: usize = 0;
        assert(hundred_pow(0) == 1);
        while i < 4
            invariant
                i <= 4,
                n == decimal_u64(self.config@).unwrap(),
                c as int == n as int / hundred_pow(i as nat) as int,
                forall|j: int| 3 - i < j < 4 ==> #[trigger] ret@[j] == board_config_of(n)[j],
            decreases 4 - i,
        {
            proof {
                lemma_hundred_pow_pos(i as nat);
                lemma_div_div(n as int, hundred_pow(i as nat) as int);
            }
            ret[3 - i].1 = (c % 10) as u8;
            c /= 10;
            ret[3 - i].0 = (c % 10) as u8;
            c /= 10;
            i = i + 1;
        }
        assert(ret@ =~= board_config_of(n));
        proof {
            lemma_board_config_digits(n);
        }
        ret
    }

    /// The tile of the assembled board on the cell `p`: the tile of the quarter
    /// board that covers `p`, turned with its quarter. Only the choice of that
    /// quarter is read, and none for the four cells around the centre.
    pub fn get_tile(config: &[(u8, u8); 4], p: Position) -> (r: u8)
        requires
            tile_readable(config@, p),
        ensures
            r == tile_value(config@, p),
    {
        proof {
            lemma_tile_bounded(config@, p);
        }
        let (b, p): (usize, Position) = match (p.x < (CELLS / 2) as u8, p.y < (CELLS / 2) as u8) {
            (true, true) => (0, p),
            (false, true) => (1, Position::new(p.y, (CELLS as u8) - p.x - 1)),
            (true, false) => (2, Position::new((CELLS as u8) - p.y - 1, p.x)),
            (false, false) => (3, Position::new((CELLS as u8) - p.x - 1, (CELLS as u8) - p.y - 1)),
        };
        let val: u8 = if p.x == 7 && p.y == 7 {
            1
        } else {
            BOARDS[config[b].0 as usize][config[b].1 as usize][p.y as usize][p.x as usize]
        };
        let mut new_val = val as i8;
        if new_val != 0 {
            if b == 1 {
                new_val += 1;
            } else if b == 2 {
                new_val -= 1;
            } else if b == 3 {
                new_val += 2;
            }
            if val > 0 && val < 5 {
                new_val = ((new_val - 1 + 4) % 4) + 1;
            }
            if val > 4 && val < 9 {
                new_val = ((new_val - 5 + 4) % 4) + 5;
            }
        }
        new_val as u8
    }
}

/// The corner of a tile, whether or not it may hold a goal.
pub open spec fn corner_of(v: int) -> int {
    if v > 4 {
        v - 4
    } else {
        v
    }
}

/// The entry of `borders_v` that the tile on `(x, y)` sets: the wall above
/// the cell for a top corner, below it for a bottom corner; -1 for no entry
/// (an empty tile, or a wall on the board's edge).
pub open spec fn tile_wall_v(config: Seq<(u8, u8)>, x: int, y: int) -> int {
    let v = tile_value(config, Position { x: x as u8, y: y as u8 });
    let c = corner_of(v);
    let vy = if c == 1 || c == 2 { y - 1 } else { y };
    if v != 0 && 0 <= vy < 15 {
        x * 15 + vy
    } else {
        -1
    }
}

/// The entry of `borders_h` that the tile on `(x, y)` sets: the wall left of
/// the cell for a left corner, right of it for a right corner; -1 for none.
pub open spec fn tile_wall_h(config: Seq<(u8, u8)>, x: int, y: int) -> int {
    let v = tile_value(config, Position { x: x as u8, y: y as u8 });
    let c = corner_of(v);
    let hx = if c == 1 || c == 4 { x - 1 } else { x };
    if v != 0 && 0 <= hx < 15 {
        y * 15 + hx
    } else {
        -1
    }
}

/// The walls that close the four cells in the board's centre, in either direction.
pub open spec fn centre_wall(k: int) -> bool {
    k == 7 * 15 + 7 || k == 8 * 15 + 7
}

/// Some tile whose cell comes before row `y`, column `x` (rows first) sets `borders_v[k]`.
pub open spec fn set_before_v(config: Seq<(u8, u8)>, k: int, y: int, x: int) -> bool {
    exists|x2: int, y2: int|
        0 <= x2 < 16 && 0 <= y2 < 16 && (y2 < y || (y2 == y && x2 < x)) && #[trigger] tile_wall_v(
            config,
            x2,
            y2,
        ) == k
}

/// Some tile whose cell comes before row `y`, column `x` (rows first) sets `borders_h[k]`.
pub open spec fn set_before_h(config: Seq<(u8, u8)>, k: int, y: int, x: int) -> bool {
    exists|x2: int, y2: int|
        0 <= x2 < 16 && 0 <= y2 < 16 && (y2 < y || (y2 == y && x2 < x)) && #[trigger] tile_wall_h(
            config,
            x2,
            y2,
        ) == k
}

/// The wall `borders_v[k]` stands on the assembled board.
pub open spec fn assembled_v(config: Seq<(u8, u8)>, k: int) -> bool {
    centre_wall(k) || set_before_v(config, k, 16, 0)
}

/// The wall `borders_h[k]` stands on the assembled board.
pub open spec fn assembled_h(config: Seq<(u8, u8)>, k: int) -> bool {
    centre_wall(k) || set_before_h(config, k, 16, 0)
}

/// Where the robot of colour `c` starts, after reading the first `n` robot
/// entries: the last entry of that colour wins; the top-left cell when none.
pub open spec fn robot_start(robots: Seq<(u8, u8, String)>, n: int, c: Color) -> Position
    decreases n,
{
    if n <= 0 {
        Position { x: 0, y: 0 }
    } else if color_named(robots[n - 1].2@) == Some(c) {
        Position { x: robots[n - 1].1, y: robots[n - 1].0 }
    } else {
        robot_start(robots, n - 1, c)
    }
}

/// Where the four robots start, indexed by colour.
pub open spec fn start_positions(robots: Seq<(u8, u8, String)>) -> Seq<Position> {
    Seq::new(4, |i: int| robot_start(robots, 4, color_at(i)))
}

impl JsonConfig {
    /// The configuration can be assembled into boards: `config` is a number
    /// that chooses existing quarter boards, and every colour is named right.
    pub open spec fn well_formed(self) -> bool {
        &&& decimal_u64(self.config@) is Some
        &&& valid_config(self.board_config())
        &&& forall|i: int| 0 <= i < 5 ==> color_named((#[trigger] self.goals@[i]).2@) is Some
        &&& forall|i: int| 0 <= i < 4 ==> color_named((#[trigger] self.robots@[i]).2@) is Some
    }

    /// `b` is the board for the goal `goals[4 - j]`.
    pub open spec fn board_matches(self, b: Board, j: int) -> bool {
        &&& b.goal == (Position { x: self.goals@[4 - j].1, y: self.goals@[4 - j].0 })
        &&& color_named(self.goals@[4 - j].2@) == Some(b.goal_color)
        &&& b.starts@ == start_positions(self.robots@)
        &&& forall|k: int| 0 <= k < WALLS ==> (b.borders_v@[k] <==> assembled_v(self.board_config(), k))
        &&& forall|k: int| 0 <= k < WALLS ==> (b.borders_h@[k] <==> assembled_h(self.board_config(), k))
    }

    /// Whether the configuration can be assembled into boards.
    pub fn is_well_formed(&self) -> (r: bool)
        ensures
            r == self.well_formed(),
    {
        if parse_decimal_u64(self.config.as_str()).is_none() {
            return false;
        }
        let config = self.parse_board_config();
        let mut i: usize = 0;
        while i < 4
            invariant
                i <= 4,
                config@ == self.board_config(),
                forall|j: int| 0 <= j < i ==> (#[trigger] config@[j]).0 < 4 && config@[j].1 < 3,
            decreases 4 - i,
        {
            if config[i].0 >= 4 || config[i].1 >= 3 {
                return false;
            }
            i = i + 1;
        }
        let mut i: usize = 0;
        while i < 5
            invariant
                i <= 5,
                forall|j: int| 0 <= j < i ==> color_named((#[trigger] self.goals@[j]).2@) is Some,
            decreases 5 - i,
        {
            if Color::from_name(self.goals[i].2.as_str()).is_none() {
                return false;
            }
            i = i + 1;
        }
        let mut i: usize = 0;
        while i < 4
            invariant
                i <= 4,
                forall|j: int| 0 <= j < i ==> color_named((#[trigger] self.robots@[j]).2@) is Some,
            decreases 4 - i,
        {
            if Color::from_name(self.robots[i].2.as_str()).is_none() {
                return false;
            }
            i = i + 1;
        }
        true
    }
}

impl JsonConfig {
    /// The five boards of the challenge, one per goal, the last goal first:
    /// the walls of the assembled quarter boards, the goal and its colour, and
    /// where the robots start.
    pub fn get_boards(&self) -> (r: Vec<Board>)
        requires
            self.well_formed(),
        ensures
            r@.len() == 5,
            forall|j: int| 0 <= j < 5 ==> self.board_matches(#[trigger] r@[j], j),
    {
        let board_config = self.parse_board_config();
        let ghost cfg = self.board_config();
        let mut borders_v: [bool; WALLS] = [false; WALLS];
        let mut borders_h: [bool; WALLS] = [false; WALLS];
        borders_v[7 * (CELLS - 1) + 7] = true;
        borders_v[8 * (CELLS - 1) + 7] = true;
        borders_h[7 * (CELLS - 1) + 7] = true;
        borders_h[8 * (CELLS - 1) + 7] = true;

        let mut y: usize = 0;
        while y < CELLS
            invariant
                y <= CELLS,
                board_config@ == cfg,
                valid_config(cfg),
                forall|k: int| 0 <= k < WALLS ==> (#[trigger] borders_v@[k] <==> centre_wall(k) || set_before_v(cfg, k, y as int, 0)),
                forall|k: int| 0 <= k < WALLS ==> (#[trigger] borders_h@[k] <==> centre_wall(k) || set_before_h(cfg, k, y as int, 0)),
            decreases CELLS - y,
        {
            let mut x: usize = 0;
            while x < CELLS
                invariant
                    y < CELLS,
                    x <= CELLS,
                    board_config@ == cfg,
                    valid_config(cfg),
                    forall|k: int| 0 <= k < WALLS ==> (#[trigger] borders_v@[k] <==> centre_wall(k) || set_before_v(cfg, k, y as int, x as int)),
                    forall|k: int| 0 <= k < WALLS ==> (#[trigger] borders_h@[k] <==> centre_wall(k) || set_before_h(cfg, k, y as int, x as int)),
                decreases CELLS - x,
            {
                let ghost old_v = borders_v@;
                let ghost old_h = borders_h@;
                proof {
                    let p = Position { x: x as u8, y: y as u8 };
                    assert(valid_choice(cfg[quadrant(p)]));
                }
                let mut val = JsonConfig::get_tile(&board_config, Position::new(x as u8, y as u8));
                proof {
                    let p = Position { x: x as u8, y: y as u8 };
                    assert(valid_choice(cfg[quadrant(p)]));
                    lemma_tile_bounded(cfg, p);
                }
                if val == 0 {
                    proof {
                        lemma_step(cfg, old_v, old_h, borders_v@, borders_h@, y as int, x as int);
                    }
                    x = x + 1;
                    continue;
                }
                if val > 4 {
                    val -= 4;
                }
                let (xi, yi): (i8, i8) = (x as i8, y as i8);
                let vy: i8 = match val {
                    1 => yi - 1,
                    2 => yi - 1,
                    3 => yi,
                    4 => yi,
                    _ => {
                        assert(false);
                        yi
                    },
                };
                let hx: i8 = match val {
                    1 => xi - 1,
                    2 => xi,
                    3 => xi,
                    4 => xi - 1,
                    _ => {
                        assert(false);
                        xi
                    },
                };
                if vy >= 0 && vy < (CELLS - 1) as i8 {
                    borders_v[xi as usize * (CELLS - 1) + vy as usize] = true;
                }
                if hx >= 0 && hx < (CELLS - 1) as i8 {
                    borders_h[yi as usize * (CELLS - 1) + hx as usize] = true;
                }
                proof {
                    let w = tile_wall_v(cfg, x as int, y as int);
                    let u = tile_wall_h(cfg, x as int, y as int);
                    assert(borders_v@ == (if w >= 0 { old_v.update(w, true) } else { old_v }));
                    assert(borders_h@ == (if u >= 0 { old_h.update(u, true) } else { old_h }));
                    lemma_step(cfg, old_v, old_h, borders_v@, borders_h@, y as int, x as int);
                }
                x = x + 1;
            }
            proof {
                lemma_row_done(cfg, borders_v@, borders_h@, y as int);
            }
            y = y + 1;
        }

        let zero = Position::new(0, 0);
        let mut starts: [Position; 4] = [zero; 4];
        let mut i: usize = 0;
        while i < 4
            invariant
                i <= 4,
                self.well_formed(),
                forall|c: int| 0 <= c < 4 ==> #[trigger] starts@[c] == robot_start(self.robots@, i as int, color_at(c)),
            decreases 4 - i,
        {
            let color = Color::from_str(self.robots[i].2.as_str());
            starts[color.index()] = Position::new(self.robots[i].1, self.robots[i].0);
            i = i + 1;
        }
        assert(starts@ =~= start_positions(self.robots@));

        let mut boards: Vec<Board> = Vec::new();
        let mut j: usize = 0;
        while j < 5
            invariant
                j <= 5,
                self.well_formed(),
                boards@.len() == j,
                starts@ == start_positions(self.robots@),
                forall|k: int| 0 <= k < WALLS ==> (borders_v@[k] <==> assembled_v(self.board_config(), k)),
                forall|k: int| 0 <= k < WALLS ==> (borders_h@[k] <==> assembled_h(self.board_config(), k)),
                forall|jj: int| 0 <= jj < j ==> self.board_matches(#[trigger] boards@[jj], jj),
            decreases 5 - j,
        {
            let goal = &self.goals[4 - j];
            let goal_p = Position::new(goal.1, goal.0);
            let goal_c = Color::from_str(goal.2.as_str());
            boards.push(
                Board {
                    borders_v: borders_v,
                    borders_h: borders_h,
                    goal: goal_p,
                    goal_color: goal_c,
                    starts: starts,
                },
            );
            j = j + 1;
        }
        boards
    }
}

/// Handling the tile on `(x, y)` extends what the walls record to that tile.
proof fn lemma_step(
    cfg: Seq<(u8, u8)>,
    old_v: Seq<bool>,
    old_h: Seq<bool>,
    new_v: Seq<bool>,
    new_h: Seq<bool>,
    y: int,
    x: int,
)
    requires
        0 <= y < 16,
        0 <= x < 16,
        old_v.len() == WALLS,
        old_h.len() == WALLS,
        forall|k: int| 0 <= k < WALLS ==> (#[trigger] old_v[k] <==> centre_wall(k) || set_before_v(cfg, k, y, x)),
        forall|k: int| 0 <= k < WALLS ==> (#[trigger] old_h[k] <==> centre_wall(k) || set_before_h(cfg, k, y, x)),
        new_v == (if tile_wall_v(cfg, x, y) >= 0 { old_v.update(tile_wall_v(cfg, x, y), true) } else { old_v }),
        new_h == (if tile_wall_h(cfg, x, y) >= 0 { old_h.update(tile_wall_h(cfg, x, y), true) } else { old_h }),
        tile_wall_v(cfg, x, y) < WALLS,
        tile_wall_h(cfg, x, y) < WALLS,
    ensures
        forall|k: int| 0 <= k < WALLS ==> (#[trigger] new_v[k] <==> centre_wall(k) || set_before_v(cfg, k, y, x + 1)),
        forall|k: int| 0 <= k < WALLS ==> (#[trigger] new_h[k] <==> centre_wall(k) || set_before_h(cfg, k, y, x + 1)),
{
    assert forall|k: int| 0 <= k < WALLS implies (#[trigger] new_v[k] <==> centre_wall(k) || set_before_v(cfg, k, y, x + 1)) by {
        if set_before_v(cfg, k, y, x + 1) {
            let (x2, y2) = choose|x2: int, y2: int|
                0 <= x2 < 16 && 0 <= y2 < 16 && (y2 < y || (y2 == y && x2 < x + 1)) && #[trigger] tile_wall_v(cfg, x2, y2) == k;
            if !(x2 == x && y2 == y) {
                assert(set_before_v(cfg, k, y, x));
            }
        }
        if set_before_v(cfg, k, y, x) {
            let (x2, y2) = choose|x2: int, y2: int|
                0 <= x2 < 16 && 0 <= y2 < 16 && (y2 < y || (y2 == y && x2 < x)) && #[trigger] tile_wall_v(cfg, x2, y2) == k;
            assert(set_before_v(cfg, k, y, x + 1));
        }
        if k == tile_wall_v(cfg, x, y) {
            assert(set_before_v(cfg, k, y, x + 1));
        }
    }
    assert forall|k: int| 0 <= k < WALLS implies (#[trigger] new_h[k] <==> centre_wall(k) || set_before_h(cfg, k, y, x + 1)) by {
        if set_before_h(cfg, k, y, x + 1) {
            let (x2, y2) = choose|x2: int, y2: int|
                0 <= x2 < 16 && 0 <= y2 < 16 && (y2 < y || (y2 == y && x2 < x + 1)) && #[trigger] tile_wall_h(cfg, x2, y2) == k;
            if !(x2 == x && y2 == y) {
                assert(set_before_h(cfg, k, y, x));
            }
        }
        if set_before_h(cfg, k, y, x) {
            let (x2, y2) = choose|x2: int, y2: int|
                0 <= x2 < 16 && 0 <= y2 < 16 && (y2 < y || (y2 == y && x2 < x)) && #[trigger] tile_wall_h(cfg, x2, y2) == k;
            assert(set_before_h(cfg, k, y, x + 1));
        }
        if k == tile_wall_h(cfg, x, y) {
            assert(set_before_h(cfg, k, y, x + 1));
        }
    }
}

/// A finished row is the same as the start of the next one.
proof fn lemma_row_done(cfg: Seq<(u8, u8)>, v: Seq<bool>, h: Seq<bool>, y: int)
    requires
        0 <= y < 16,
        forall|k: int| 0 <= k < WALLS ==> (#[trigger] v[k] <==> centre_wall(k) || set_before_v(cfg, k, y, 16)),
        forall|k: int| 0 <= k < WALLS ==> (#[trigger] h[k] <==> centre_wall(k) || set_before_h(cfg, k, y, 16)),
    ensures
        forall|k: int| 0 <= k < WALLS ==> (#[trigger] v[k] <==> centre_wall(k) || set_before_v(cfg, k, y + 1, 0)),
        forall|k: int| 0 <= k < WALLS ==> (#[trigger] h[k] <==> centre_wall(k) || set_before_h(cfg, k, y + 1, 0)),
{
    assert forall|k: int| 0 <= k < WALLS implies set_before_v(cfg, k, y, 16) == set_before_v(cfg, k, y + 1, 0) by {
        if set_before_v(cfg, k, y, 16) {
            let (x2, y2) = choose|x2: int, y2: int|
                0 <= x2 < 16 && 0 <= y2 < 16 && (y2 < y || (y2 == y && x2 < 16)) && #[trigger] tile_wall_v(cfg, x2, y2) == k;
            assert(set_before_v(cfg, k, y + 1, 0));
        }
        if set_before_v(cfg, k, y + 1, 0) {
            let (x2, y2) = choose|x2: int, y2: int|
                0 <= x2 < 16 && 0 <= y2 < 16 && (y2 < y + 1 || (y2 == y + 1 && x2 < 0)) && #[trigger] tile_wall_v(cfg, x2, y2) == k;
            assert(set_before_v(cfg, k, y, 16));
        }
    }
    assert forall|k: int| 0 <= k < WALLS implies set_before_h(cfg, k, y, 16) == set_before_h(cfg, k, y + 1, 0) by {
        if set_before_h(cfg, k, y, 16) {
            let (x2, y2) = choose|x2: int, y2: int|
                0 <= x2 < 16 && 0 <= y2 < 16 && (y2 < y || (y2 == y && x2 < 16)) && #[trigger] tile_wall_h(cfg, x2, y2) == k;
            assert(set_before_h(cfg, k, y + 1, 0));
        }
        if set_before_h(cfg, k, y + 1, 0) {
            let (x2, y2) = choose|x2: int, y2: int|
                0 <= x2 < 16 && 0 <= y2 < 16 && (y2 < y + 1 || (y2 == y + 1 && x2 < 0)) && #[trigger] tile_wall_h(cfg, x2, y2) == k;
            assert(set_before_h(cfg, k, y, 16));
        }
    }
}

} // verus!
