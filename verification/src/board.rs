//! The board: its walls, the goal and where the robots start; and what a
//! sequence of moves does to the robots.
use vstd::prelude::*;
use crate::pieces::{color_index, Color, Direction, Position, CELLS};
use crate::state::{
    can_step, lemma_slide_blocked, lemma_slide_on_board, lemma_slide_stops, lemma_slide_straight,
    neighbor, slide,
};

verus! {

/// Number of walls that can stand in one direction: 16 rows (or columns)
/// with 15 gaps each.
pub const WALLS: usize = 240;

/// A puzzle: the walls, the goal cell, the colour of the robot that must
/// reach it, and the cells the four robots start on.
///
/// `borders_v[x * 15 + y]` is the wall between cells `(x, y)` and `(x, y + 1)`;
/// `borders_h[y * 15 + x]` is the wall between cells `(x, y)` and `(x + 1, y)`.
/// `starts` is indexed by colour: red, green, blue, yellow.
pub struct Board {
    pub borders_v: [bool; WALLS],
    pub borders_h: [bool; WALLS],
    pub goal: Position,
    pub goal_color: Color,
    pub starts: [Position; 4],
}

/// Every robot of a configuration stands on the board.
pub open spec fn all_on_board(ps: Seq<Position>) -> bool {
    &&& ps.len() == 4
    &&& forall|i: int| 0 <= i < 4 ==> (#[trigger] ps[i]).on_board()
}

/// What one move does: the robot of the move's colour slides in the move's
/// direction; the others stay.
pub open spec fn apply_move(board: Board, ps: Seq<Position>, m: (Color, Direction)) -> Seq<Position> {
    let i = color_index(m.0);
    ps.update(i, slide(board, ps, ps[i], m.1))
}

/// Where the robots stand after the moves, made one after the other from `ps`.
pub open spec fn replay(board: Board, ps: Seq<Position>, moves: Seq<(Color, Direction)>) -> Seq<Position>
    decreases moves.len(),
{
    if moves.len() == 0 {
        ps
    } else {
        apply_move(board, replay(board, ps, moves.drop_last()), moves.last())
    }
}

impl Board {
    /// The robots all start on the board.
    pub open spec fn wf(self) -> bool {
        all_on_board(self.starts@)
    }

    /// The robot of the goal's colour stands on the goal.
    pub open spec fn goal_reached(self, ps: Seq<Position>) -> bool {
        ps[color_index(self.goal_color)] == self.goal
    }

    /// The moves bring the goal's robot onto the goal, in a configuration
    /// other than the start.
    pub open spec fn solved_by(self, moves: Seq<(Color, Direction)>) -> bool {
        let end = replay(self, self.starts@, moves);
        &&& self.goal_reached(end)
        &&& end != self.starts@
    }
}

/// A move leaves every robot on the board.
pub proof fn lemma_move_stays_on_board(board: Board, ps: Seq<Position>, m: (Color, Direction))
    requires
        all_on_board(ps),
    ensures
        all_on_board(apply_move(board, ps, m)),
{
    let i = color_index(m.0);
    lemma_slide_on_board(board, ps, ps[i], m.1);
}

/// Any sequence of moves leaves every robot on the board.
pub proof fn lemma_replay_on_board(board: Board, ps: Seq<Position>, moves: Seq<(Color, Direction)>)
    requires
        all_on_board(ps),
    ensures
        all_on_board(replay(board, ps, moves)),
    decreases moves.len(),
{
    if moves.len() > 0 {
        lemma_replay_on_board(board, ps, moves.drop_last());
        lemma_move_stays_on_board(board, replay(board, ps, moves.drop_last()), moves.last());
    }
}

/// The walls of the built-in hard puzzle that stand below a cell, as
/// `(row, column)`: each closes the gap between `(column, row)` and `(column, row + 1)`.
pub const HARD_WALLS_V: [(u8, u8); 25] = [
    (0, 14),
    (1, 2),
    (2, 11),
    (3, 1),
    (3, 6),
    (3, 15),
    (4, 0),
    (5, 5),
    (6, 7),
    (6, 8),
    (6, 10),
    (6, 13),
    (7, 3),
    (8, 3),
    (8, 7),
    (8, 8),
    (8, 14),
    (10, 11),
    (10, 15),
    (11, 1),
    (11, 9),
    (12, 6),
    (13, 0),
    (13, 2),
    (14, 13),
];

/// The walls of the built-in hard puzzle that stand right of a cell, as
/// `(row, column)`: each closes the gap between `(column, row)` and `(column + 1, row)`.
pub const HARD_WALLS_H: [(u8, u8); 25] = [
    (0, 4),
    (0, 9),
    (1, 2),
    (1, 13),
    (2, 10),
    (3, 0),
    (4, 5),
    (6, 5),
    (6, 13),
    (7, 3),
    (7, 6),
    (7, 8),
    (7, 10),
    (8, 6),
    (8, 8),
    (9, 3),
    (9, 13),
    (10, 10),
    (11, 0),
    (12, 6),
    (12, 9),
    (14, 1),
    (14, 13),
    (15, 5),
    (15, 10),
];

impl Board {
    /// A hard puzzle: the blue robot has to reach the cell in column 9, row 12.
    pub fn hard_puzzle() -> (r: Self)
        ensures
            r.wf(),
            forall|k: int| 0 <= k < WALLS ==> (r.borders_v@[k] <==> exists|j: int|
                0 <= j < 25 && #[trigger] HARD_WALLS_V@[j].1 * 15 + HARD_WALLS_V@[j].0 == k),
            forall|k: int| 0 <= k < WALLS ==> (r.borders_h@[k] <==> exists|j: int|
                0 <= j < 25 && #[trigger] HARD_WALLS_H@[j].0 * 15 + HARD_WALLS_H@[j].1 == k),
            r.goal == (Position { x: 9, y: 12 }),
            r.goal_color == Color::B,
            r.starts@ == seq![
                (Position { x: 2, y: 14 }),
                (Position { x: 0, y: 3 }),
                (Position { x: 11, y: 2 }),
                (Position { x: 2, y: 1 }),
            ],
    {
        let mut borders_v = [false; WALLS];
        let mut borders_h = [false; WALLS];
        let mut i: usize = 0;
        while i < 25
            invariant
                i <= 25,
                forall|k: int| 0 <= k < WALLS ==> (borders_v@[k] <==> exists|j: int|
                    0 <= j < i && #[trigger] HARD_WALLS_V@[j].1 * 15 + HARD_WALLS_V@[j].0 == k),
            decreases 25 - i,
        {
            let (y, x) = HARD_WALLS_V[i];
            assert(x <= 15 && y <= 14);
            assert(x * ((CELLS - 1) as u8) == x * 15);
            borders_v[(x * (CELLS - 1) as u8 + y) as usize] = true;
            i = i + 1;
        }
        let mut i: usize = 0;
        while i < 25
            invariant
                i <= 25,
                forall|k: int| 0 <= k < WALLS ==> (borders_h@[k] <==> exists|j: int|
                    0 <= j < i && #[trigger] HARD_WALLS_H@[j].0 * 15 + HARD_WALLS_H@[j].1 == k),
            decreases 25 - i,
        {
            let (y, x) = HARD_WALLS_H[i];
            assert(x <= 14 && y <= 15);
            assert(y * ((CELLS - 1) as u8) == y * 15);
            borders_h[(y * (CELLS - 1) as u8 + x) as usize] = true;
            i = i + 1;
        }
        Board {
            borders_v: borders_v,
            borders_h: borders_h,
            goal: Position::new(9, 12),
            goal_color: Color::B,
            starts: [
                Position::new(2, 14),
                Position::new(0, 3),
                Position::new(11, 2),
                Position::new(2, 1),
            ],
        }
    }
}

/// Making the same move twice in a row is the same as making it once: the
/// robot has already slid as far as it can.
pub proof fn lemma_move_twice(board: Board, ps: Seq<Position>, m: (Color, Direction))
    requires
        all_on_board(ps),
    ensures
        apply_move(board, apply_move(board, ps, m), m) == apply_move(board, ps, m),
{
    let i = color_index(m.0);
    let d = m.1;
    let p = ps[i];
    let r = slide(board, ps, p, d);
    let ps2 = ps.update(i, r);
    lemma_slide_straight(board, ps, p, d);
    lemma_slide_stops(board, ps, p, d);
    lemma_slide_on_board(board, ps, p, d);
    let nx = neighbor(r, d);
    let inside = match d {
        Direction::Up => r.y > 0,
        Direction::Down => r.y < 15,
        Direction::Left => r.x > 0,
        Direction::Right => r.x < 15,
    };
    if inside {
        assert(nx != p && nx != r);
        assert(ps2.contains(nx) == ps.contains(nx)) by {
            if ps.contains(nx) {
                let j = choose|j: int| 0 <= j < ps.len() && ps[j] == nx;
                assert(j != i);
                assert(ps2[j] == nx);
            }
            if ps2.contains(nx) {
                let j = choose|j: int| 0 <= j < ps2.len() && ps2[j] == nx;
                assert(j != i);
                assert(ps[j] == nx);
            }
        }
    }
    assert(!can_step(board, ps2, r, d));
    lemma_slide_blocked(board, ps2, r, d);
    assert(ps2[i] == r);
    assert(ps2.update(i, r) =~= ps2);
}

/// A sequence of moves solves a board exactly when, made one after the other
/// from the starts, it leaves the robot of the goal's colour (and no other
/// robot in its place) on the goal, in a configuration other than the start.
pub proof fn lemma_solved_by_meaning(board: Board, moves: Seq<(Color, Direction)>)
    ensures
        board.solved_by(moves) <==> (replay(board, board.starts@, moves)[color_index(board.goal_color)]
            == board.goal && replay(board, board.starts@, moves) != board.starts@),
{
}

} // verus!
