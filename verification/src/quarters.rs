//! The four quarter boards the puzzle's board is assembled from, and how
//! a quarter is turned into place.
use vstd::prelude::*;
use crate::pieces::Position;

verus! {

/// The quarter boards: four colours, three variants each, 8 x 8 tiles each,
/// indexed `[colour][variant][row][column]`, for the quarter in the top left.
/// A tile is 0 when it is empty; 1 to 4 when two walls meet on it in a corner
/// (1 top and left, 2 top and right, 3 bottom and right, 4 bottom and left);
/// 4 more (5 to 8) when the tile may also hold a goal.
pub const BOARDS: [[[[u8; 8]; 8]; 3]; 4] = [
    [
        [
            [0, 0, 2, 0, 0, 0, 0, 0],
            [0, 0, 0, 0, 0, 8, 0, 0],
            [0, 0, 0, 0, 0, 0, 0, 7],
            [4, 0, 0, 0, 0, 0, 0, 0],
            [0, 0, 0, 7, 0, 0, 0, 0],
            [0, 0, 0, 0, 0, 0, 5, 0],
            [0, 6, 0, 0, 0, 0, 0, 0],
            [0, 0, 0, 0, 0, 0, 0, 0],
        ],
        [
            [0, 0, 0, 0, 0, 1, 0, 0],
            [0, 0, 7, 0, 0, 0, 0, 0],
            [0, 0, 0, 0, 0, 0, 0, 0],
            [0, 8, 0, 0, 0, 0, 0, 0],
            [4, 0, 0, 0, 0, 0, 5, 0],
            [0, 0, 0, 0, 0, 0, 0, 0],
            [0, 0, 0, 0, 0, 6, 0, 0],
            [0, 0, 0, 7, 0, 0, 0, 0],
        ],
        [
            [0, 0, 0, 0, 1, 0, 0, 0],
            [0, 0, 0, 0, 0, 0, 8, 0],
            [0, 0, 0, 0, 0, 0, 0, 0],
            [0, 6, 0, 0, 0, 0, 0, 0],
            [0, 0, 0, 0, 0, 5, 0, 0],
            [0, 0, 7, 0, 0, 0, 0, 3],
            [4, 0, 0, 0, 0, 0, 0, 0],
            [0, 0, 0, 0, 0, 0, 0, 0],
        ],
    ],
    [
        [
            [0, 2, 0, 0, 0, 0, 0, 0],
            [0, 0, 0, 0, 6, 0, 0, 0],
            [0, 0, 0, 0, 0, 0, 0, 0],
            [0, 8, 0, 0, 0, 0, 0, 0],
            [0, 0, 0, 0, 0, 0, 0, 0],
            [0, 0, 0, 0, 0, 5, 0, 0],
            [1, 0, 0, 7, 0, 0, 0, 0],
            [0, 0, 0, 0, 0, 0, 0, 0],
        ],
        [
            [0, 0, 0, 2, 0, 0, 0, 0],
            [0, 8, 0, 0, 0, 0, 0, 0],
            [0, 0, 0, 0, 0, 0, 6, 0],
            [0, 0, 0, 0, 0, 0, 0, 0],
            [0, 0, 7, 0, 0, 0, 0, 0],
            [0, 0, 0, 0, 0, 0, 0, 5],
            [1, 0, 0, 0, 0, 0, 0, 0],
            [0, 0, 0, 0, 0, 0, 0, 0],
        ],
        [
            [0, 0, 0, 2, 0, 0, 0, 0],
            [0, 0, 0, 0, 0, 0, 0, 0],
            [0, 0, 0, 0, 0, 6, 0, 0],
            [0, 0, 0, 0, 0, 0, 0, 0],
            [4, 0, 6, 0, 0, 0, 0, 0],
            [0, 0, 0, 0, 0, 0, 0, 8],
            [0, 5, 0, 0, 0, 0, 0, 0],
            [0, 0, 0, 0, 0, 0, 0, 0],
        ],
    ],
    [
        [
            [0, 2, 0, 0, 0, 0, 0, 0],
            [0, 0, 0, 5, 0, 0, 0, 0],
            [0, 0, 0, 0, 0, 0, 0, 0],
            [0, 0, 0, 0, 0, 0, 7, 0],
            [0, 8, 0, 0, 0, 0, 0, 0],
            [0, 0, 0, 0, 0, 0, 0, 0],
            [1, 0, 0, 0, 6, 0, 0, 0],
            [0, 0, 0, 0, 0, 0, 0, 0],
        ],
        [
            [0, 0, 0, 0, 0, 1, 0, 0],
            [0, 0, 0, 0, 0, 0, 7, 0],
            [0, 5, 0, 0, 0, 0, 0, 0],
            [0, 0, 0, 0, 0, 0, 0, 0],
            [0, 0, 0, 0, 0, 0, 0, 0],
            [0, 0, 0, 0, 0, 0, 6, 0],
            [1, 0, 8, 0, 0, 0, 0, 0],
            [0, 0, 0, 0, 0, 0, 0, 0],
        ],
        [
            [0, 2, 0, 0, 0, 0, 0, 0],
            [0, 0, 0, 0, 5, 0, 0, 0],
            [0, 6, 0, 0, 0, 0, 0, 0],
            [0, 0, 0, 0, 0, 0, 7, 0],
            [0, 0, 0, 0, 0, 0, 0, 0],
            [4, 0, 0, 0, 0, 0, 0, 0],
            [0, 0, 0, 8, 0, 0, 0, 0],
            [0, 0, 0, 0, 0, 0, 0, 0],
        ],
    ],
    [
        [
            [0, 0, 0, 2, 0, 0, 0, 0],
            [0, 0, 0, 0, 0, 7, 0, 0],
            [0, 8, 0, 0, 0, 0, 0, 0],
            [4, 0, 0, 0, 0, 0, 0, 0],
            [0, 0, 0, 7, 0, 0, 5, 0],
            [0, 0, 0, 0, 0, 0, 0, 0],
            [0, 0, 6, 0, 0, 0, 0, 0],
            [0, 0, 0, 0, 0, 0, 0, 0],
        ],
        [
            [0, 0, 0, 0, 0, 1, 0, 0],
            [0, 0, 5, 0, 0, 0, 0, 0],
            [0, 0, 0, 0, 0, 0, 0, 0],
            [0, 0, 0, 0, 0, 0, 8, 0],
            [4, 0, 0, 0, 0, 0, 0, 0],
            [0, 0, 0, 0, 6, 0, 0, 0],
            [0, 7, 0, 0, 0, 0, 0, 0],
            [0, 0, 0, 0, 0, 0, 0, 0],
        ],
        [
            [0, 0, 0, 0, 0, 2, 0, 0],
            [0, 0, 0, 0, 0, 0, 0, 0],
            [0, 0, 0, 5, 0, 0, 0, 0],
            [0, 0, 0, 0, 0, 8, 0, 0],
            [1, 0, 6, 0, 0, 0, 0, 0],
            [0, 0, 0, 0, 7, 0, 0, 0],
            [0, 0, 0, 0, 0, 0, 0, 0],
            [0, 0, 0, 0, 0, 0, 0, 0],
        ],
    ],
];


/// Every tile of the quarter boards is at most 8.
pub proof fn lemma_boards_bounded(a: int, b: int, y: int, x: int)
    requires
        0 <= a < 4,
        0 <= b < 3,
        0 <= y < 8,
        0 <= x < 8,
    ensures
        BOARDS[a][b][y][x] <= 8,
{
    assert(a == 0 || a == 1 || a == 2 || a == 3);
    assert(b == 0 || b == 1 || b == 2);
    assert(y == 0 || y == 1 || y == 2 || y == 3 || y == 4 || y == 5 || y == 6 || y == 7);
    assert(x == 0 || x == 1 || x == 2 || x == 3 || x == 4 || x == 5 || x == 6 || x == 7);
}

/// Which quarter of the board a cell lies in: 0 top left, 1 top right,
/// 2 bottom left, 3 bottom right.
pub open spec fn quadrant(p: Position) -> int {
    if p.x < 8 {
        if p.y < 8 {
            0
        } else {
            2
        }
    } else {
        if p.y < 8 {
            1
        } else {
            3
        }
    }
}

/// Where a cell lies on its quarter board, once the quarter is turned into
/// the top-left orientation the quarter boards are stored in.
pub open spec fn local_position(p: Position) -> Position {
    let b = quadrant(p);
    if b == 0 {
        p
    } else if b == 1 {
        Position { x: p.y, y: (15 - p.x) as u8 }
    } else if b == 2 {
        Position { x: (15 - p.y) as u8, y: p.x }
    } else {
        Position { x: (15 - p.x) as u8, y: (15 - p.y) as u8 }
    }
}

/// The tile that a quarter board holds for a cell, before it is turned; the
/// cell next to the board's centre always holds a corner of the centre block.
pub open spec fn raw_tile(config: Seq<(u8, u8)>, p: Position) -> int {
    let b = quadrant(p);
    let q = local_position(p);
    if q.x == 7 && q.y == 7 {
        1
    } else {
        BOARDS[config[b].0 as int][config[b].1 as int][q.y as int][q.x as int] as int
    }
}

/// By how many quarter turns the corner of a tile moves when its quarter is
/// put in place.
pub open spec fn turn_shift(b: int) -> int {
    if b == 0 {
        0
    } else if b == 1 {
        1
    } else if b == 2 {
        -1
    } else {
        2
    }
}

/// A tile turned with its quarter: the corner moves round, and whether the
/// tile may hold a goal stays.
pub open spec fn turned_tile(raw: int, b: int) -> int {
    if raw == 0 {
        0
    } else if 1 <= raw <= 4 {
        (raw - 1 + turn_shift(b) + 4) % 4 + 1
    } else if 5 <= raw <= 8 {
        (raw - 5 + turn_shift(b) + 4) % 4 + 5
    } else {
        raw + turn_shift(b)
    }
}

/// A quarter-board choice names an existing quarter board: one of four
/// colours, one of three variants.
pub open spec fn valid_choice(choice: (u8, u8)) -> bool {
    choice.0 < 4 && choice.1 < 3
}

/// Every quarter-board choice is possible.
pub open spec fn valid_config(config: Seq<(u8, u8)>) -> bool {
    &&& config.len() == 4
    &&& forall|i: int| 0 <= i < 4 ==> valid_choice(#[trigger] config[i])
}

/// The tile on `p` can be read: `p` lies on the board, and it is a cell next
/// to the centre (whose tile is fixed) or the quarter it lies in is chosen
/// validly.
pub open spec fn tile_readable(config: Seq<(u8, u8)>, p: Position) -> bool {
    &&& config.len() == 4
    &&& p.on_board()
    &&& (local_position(p) == (Position { x: 7, y: 7 }) || valid_choice(config[quadrant(p)]))
}

/// The tile that the assembled board holds on the cell `p`, when quarter `b`
/// is quarter board `config[b]`.
pub open spec fn tile_value(config: Seq<(u8, u8)>, p: Position) -> int {
    turned_tile(raw_tile(config, p), quadrant(p))
}

/// Every tile of an assembled board is at most 8, and is 0 exactly when the
/// quarter board's tile is.
pub proof fn lemma_tile_bounded(config: Seq<(u8, u8)>, p: Position)
    requires
        tile_readable(config, p),
    ensures
        0 <= tile_value(config, p) <= 8,
        (tile_value(config, p) == 0) == (raw_tile(config, p) == 0),
        (tile_value(config, p) > 4) == (raw_tile(config, p) > 4),
{
    let b = quadrant(p);
    let q = local_position(p);
    if !(q.x == 7 && q.y == 7) {
        lemma_boards_bounded(config[b].0 as int, config[b].1 as int, q.y as int, q.x as int);
    }
}

} // verus!
