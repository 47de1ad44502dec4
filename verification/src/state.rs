//! A configuration of the four robots together with the move that led to it,
//! and how a robot slides.
use vstd::prelude::*;
use crate::board::Board;
use crate::pieces::{color_index, Color, Direction, Position, CELLS};

verus! {

/// The cell next to `p` in direction `d` (meaningful when it is on the board).
pub open spec fn neighbor(p: Position, d: Direction) -> Position {
    match d {
        Direction::Up => Position { x: p.x, y: (p.y - 1) as u8 },
        Direction::Down => Position { x: p.x, y: (p.y + 1) as u8 },
        Direction::Left => Position { x: (p.x - 1) as u8, y: p.y },
        Direction::Right => Position { x: (p.x + 1) as u8, y: p.y },
    }
}

/// A robot on `p` can take one step in direction `d`: the next cell is on the
/// board, no robot stands there, and no wall lies between.
pub open spec fn can_step(board: Board, ps: Seq<Position>, p: Position, d: Direction) -> bool {
    &&& !ps.contains(neighbor(p, d))
    &&& match d {
        Direction::Up => p.y > 0 && !board.borders_v@[p.x * 15 + p.y - 1],
        Direction::Down => p.y < 15 && !board.borders_v@[p.x * 15 + p.y],
        Direction::Left => p.x > 0 && !board.borders_h@[p.y * 15 + p.x - 1],
        Direction::Right => p.x < 15 && !board.borders_h@[p.y * 15 + p.x],
    }
}

/// A robot on `p` stands against the board's edge (or beyond it) in
/// direction `d`, so it takes no step that way.
pub open spec fn at_edge(p: Position, d: Direction) -> bool {
    match d {
        Direction::Up => p.y == 0,
        Direction::Down => p.y >= 15,
        Direction::Left => p.x == 0,
        Direction::Right => p.x >= 15,
    }
}

/// How many steps separate `p` from the board's edge in direction `d`.
pub open spec fn edge_distance(p: Position, d: Direction) -> nat {
    match d {
        Direction::Up => p.y as nat,
        Direction::Down => if p.y < 15 { (15 - p.y) as nat } else { 0 },
        Direction::Left => p.x as nat,
        Direction::Right => if p.x < 15 { (15 - p.x) as nat } else { 0 },
    }
}

/// Where a robot that starts on `p` stops when it slides in direction `d`
/// among the robots `ps`: it steps on until the next step is blocked.
pub open spec fn slide(board: Board, ps: Seq<Position>, p: Position, d: Direction) -> Position
    decreases edge_distance(p, d),
{
    if can_step(board, ps, p, d) {
        slide(board, ps, neighbor(p, d), d)
    } else {
        p
    }
}

/// A robot that slides from a cell of the board stops on a cell of the board.
pub proof fn lemma_slide_on_board(board: Board, ps: Seq<Position>, p: Position, d: Direction)
    requires
        p.on_board(),
    ensures
        slide(board, ps, p, d).on_board(),
    decreases edge_distance(p, d),
{
    if can_step(board, ps, p, d) {
        lemma_slide_on_board(board, ps, neighbor(p, d), d);
    }
}

/// A robot slides in a straight line: it stays in its column (moving up or
/// down) or row (moving left or right), and ends no further back than it began.
pub proof fn lemma_slide_straight(board: Board, ps: Seq<Position>, p: Position, d: Direction)
    ensures
        ({
            let r = slide(board, ps, p, d);
            match d {
                Direction::Up => r.x == p.x && r.y <= p.y,
                Direction::Down => r.x == p.x && r.y >= p.y,
                Direction::Left => r.y == p.y && r.x <= p.x,
                Direction::Right => r.y == p.y && r.x >= p.x,
            }
        }),
    decreases edge_distance(p, d),
{
    if can_step(board, ps, p, d) {
        lemma_slide_straight(board, ps, neighbor(p, d), d);
    }
}

/// A robot that cannot step on does not slide.
pub proof fn lemma_slide_blocked(board: Board, ps: Seq<Position>, p: Position, d: Direction)
    requires
        !can_step(board, ps, p, d),
    ensures
        slide(board, ps, p, d) == p,
{
}

/// Where a robot stops, it cannot step on.
pub proof fn lemma_slide_stops(board: Board, ps: Seq<Position>, p: Position, d: Direction)
    ensures
        !can_step(board, ps, slide(board, ps, p, d), d),
    decreases edge_distance(p, d),
{
    if can_step(board, ps, p, d) {
        lemma_slide_stops(board, ps, neighbor(p, d), d);
    }
}

/// The robots, and the move that led here from the configuration stored at
/// index `parent_id` of the search.
#[derive(Clone, Copy)]
pub struct State {
    pub parent_id: usize,
    pub color: Color,
    pub dir: Direction,
    /// Indexed by colour: red, green, blue, yellow.
    pub positions: [Position; 4],
}

impl State {
    pub fn set_position(&mut self, c: Color, p: Position)
        ensures
            final(self).positions@ == old(self).positions@.update(color_index(c), p),
            final(self).parent_id == old(self).parent_id,
            final(self).color == old(self).color,
            final(self).dir == old(self).dir,
    {
        self.positions[c.index()] = p;
    }

    pub fn get_position(&self, c: Color) -> (p: Position)
        ensures
            p == self.positions@[color_index(c)],
    {
        self.positions[c.index()]
    }

    /// No robot stands on `p`.
    pub fn is_free(&self, p: Position) -> (r: bool)
        ensures
            r == !self.positions@.contains(p),
    {
        let mut i: usize = 0;
        while i < 4
            invariant
                i <= 4,
                forall|j: int| 0 <= j < i ==> self.positions@[j] != p,
            decreases 4 - i,
        {
            if p == self.positions[i] {
                assert(self.positions@[i as int] == p);
                return false;
            }
            i = i + 1;
        }
        true
    }

    /// Where a robot standing on `current` stops when it slides in direction `d`.
    pub fn new_position(&self, current: Position, d: Direction, board: &Board) -> (r: Position)
        requires
            current.on_board() || at_edge(current, d),
        ensures
            r == slide(*board, self.positions@, current, d),
    {
        let ghost start = current;
        let mut current = current;
        if d == Direction::Up {
            let walls = &board.borders_v;
            while current.y > 0 && self.is_free(Position::new(current.x, current.y - 1))
                && !walls[(current.x * (CELLS - 1) as u8 + current.y - 1) as usize]
                invariant
                    current.on_board() || at_edge(current, d),
                    d == Direction::Up,
                    walls@ == board.borders_v@,
                    slide(*board, self.positions@, current, d) == slide(*board, self.positions@, start, d),
                decreases current.y,
            {
                let ghost before = current;
                current.y = current.y - 1;
                assert(current == neighbor(before, d));
                assert(can_step(*board, self.positions@, before, d));
            }
        } else if d == Direction::Down {
            let walls = &board.borders_v;
            while current.y < (CELLS - 1) as u8 && self.is_free(Position::new(current.x, current.y + 1))
                && !walls[(current.x * (CELLS - 1) as u8 + current.y) as usize]
                invariant
                    current.on_board() || at_edge(current, d),
                    d == Direction::Down,
                    walls@ == board.borders_v@,
                    slide(*board, self.positions@, current, d) == slide(*board, self.positions@, start, d),
                decreases 15 - current.y,
            {
                let ghost before = current;
                current.y = current.y + 1;
                assert(current == neighbor(before, d));
                assert(can_step(*board, self.positions@, before, d));
            }
        } else if d == Direction::Left {
            let walls = &board.borders_h;
            while current.x > 0 && self.is_free(Position::new(current.x - 1, current.y))
                && !walls[(current.y * (CELLS - 1) as u8 + current.x - 1) as usize]
                invariant
                    current.on_board() || at_edge(current, d),
                    d == Direction::Left,
                    walls@ == board.borders_h@,
                    slide(*board, self.positions@, current, d) == slide(*board, self.positions@, start, d),
                decreases current.x,
            {
                let ghost before = current;
                current.x = current.x - 1;
                assert(current == neighbor(before, d));
                assert(can_step(*board, self.positions@, before, d));
            }
        } else {
            let walls = &board.borders_h;
            while current.x < (CELLS - 1) as u8 && self.is_free(Position::new(current.x + 1, current.y))
                && !walls[(current.y * (CELLS - 1) as u8 + current.x) as usize]
                invariant
                    current.on_board() || at_edge(current, d),
                    d == Direction::Right,
                    walls@ == board.borders_h@,
                    slide(*board, self.positions@, current, d) == slide(*board, self.positions@, start, d),
                decreases 15 - current.x,
            {
                let ghost before = current;
                current.x = current.x + 1;
                assert(current == neighbor(before, d));
                assert(can_step(*board, self.positions@, before, d));
            }
        }
        current
    }

    /// The state after moving the robot of colour `c` in direction `d`, reached
    /// from the state stored at index `self_id`; `None` when the robot cannot move.
    pub fn turn(&self, self_id: usize, c: Color, d: Direction, board: &Board) -> (r: Option<Self>)
        requires
            self.positions@[color_index(c)].on_board() || at_edge(self.positions@[color_index(c)], d),
        ensures
            ({
                let i = color_index(c);
                let to = slide(*board, self.positions@, self.positions@[i], d);
                match r {
                    None => to == self.positions@[i],
                    Some(next) => {
                        &&& to != self.positions@[i]
                        &&& next.positions@ == self.positions@.update(i, to)
                        &&& next.parent_id == self_id
                        &&& next.color == c
                        &&& next.dir == d
                    },
                }
            }),
    {
        let pos = self.get_position(c);
        let new_pos = self.new_position(pos, d, board);
        if new_pos == pos {
            None
        } else {
            let mut ret = self.clone();
            ret.set_position(c, new_pos);
            ret.parent_id = self_id;
            ret.color = c;
            ret.dir = d;
            Some(ret)
        }
    }
}

} // verus!
