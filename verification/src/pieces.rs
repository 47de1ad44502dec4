//! The colours of the robots, the directions they move in, and cells.
use vstd::prelude::*;

verus! {

/// Number of cells along each side of the board.
pub const CELLS: usize = 16;

/// A direction in which a robot slides.
#[derive(Clone, Copy, PartialEq, Eq, Structural, Debug)]
pub enum Direction {
    Up,
    Down,
    Left,
    Right,
}

/// The colour of a robot (and of a goal).
#[derive(Clone, Copy, PartialEq, Eq, Structural, Debug)]
pub enum Color {
    R,
    G,
    B,
    Y,
}

/// The name under which the puzzle server knows a direction.
pub open spec fn direction_name(d: Direction) -> Seq<char> {
    match d {
        Direction::Up => "up"@,
        Direction::Down => "down"@,
        Direction::Left => "left"@,
        Direction::Right => "right"@,
    }
}

/// The name under which the puzzle server knows a colour.
pub open spec fn color_name(c: Color) -> Seq<char> {
    match c {
        Color::R => "red"@,
        Color::G => "green"@,
        Color::B => "blue"@,
        Color::Y => "yellow"@,
    }
}

/// The colour whose name is `s`, if there is one.
pub open spec fn color_named(s: Seq<char>) -> Option<Color> {
    if s == "red"@ {
        Some(Color::R)
    } else if s == "green"@ {
        Some(Color::G)
    } else if s == "blue"@ {
        Some(Color::B)
    } else if s == "yellow"@ {
        Some(Color::Y)
    } else {
        None
    }
}

/// The slot of a direction in the four-way choice up, down, left, right.
pub open spec fn direction_index(d: Direction) -> int {
    match d {
        Direction::Up => 0,
        Direction::Down => 1,
        Direction::Left => 2,
        Direction::Right => 3,
    }
}

/// The direction in slot `i` of the choice up, down, left, right.
pub open spec fn direction_at(i: int) -> Direction {
    if i == 0 {
        Direction::Up
    } else if i == 1 {
        Direction::Down
    } else if i == 2 {
        Direction::Left
    } else {
        Direction::Right
    }
}

/// The slot of a colour in arrays indexed by colour: red, green, blue, yellow.
pub open spec fn color_index(c: Color) -> int {
    match c {
        Color::R => 0,
        Color::G => 1,
        Color::B => 2,
        Color::Y => 3,
    }
}

/// The colour in slot `i` of arrays indexed by colour.
pub open spec fn color_at(i: int) -> Color {
    if i == 0 {
        Color::R
    } else if i == 1 {
        Color::G
    } else if i == 2 {
        Color::B
    } else {
        Color::Y
    }
}

/// The four colours are named by four different strings.
pub proof fn lemma_color_names_distinct()
    ensures
        forall|a: Color, b: Color| #[trigger] color_name(a) == #[trigger] color_name(b) ==> a == b,
{
    reveal_strlit("red");
    reveal_strlit("green");
    reveal_strlit("blue");
    reveal_strlit("yellow");
    assert("red"@.len() == 3);
    assert("blue"@.len() == 4);
    assert("red"@[0] != "green"@[0]);
    assert("blue"@[0] != "green"@[0]);
}

/// Reading back the name of a colour gives the colour.
pub proof fn lemma_color_name_roundtrip(c: Color)
    ensures
        color_named(color_name(c)) == Some(c),
{
    lemma_color_names_distinct();
    assert(color_name(Color::R) == "red"@);
    assert(color_name(Color::G) == "green"@);
    assert(color_name(Color::B) == "blue"@);
    assert(color_name(Color::Y) == "yellow"@);
}

/// Whether two strings hold the same characters.
pub fn str_equals(a: &str, b: &str) -> (r: bool)
    ensures
        r == (a@ == b@),
{
    let n = a.unicode_len();
    if n != b.unicode_len() {
        return false;
    }
    let mut i: usize = 0;
    while i < n
        invariant
            n == a@.len(),
            n == b@.len(),
            i <= n,
            forall|j: int| 0 <= j < i ==> a@[j] == b@[j],
        decreases n - i,
    {
        if a.get_char(i) != b.get_char(i) {
            return false;
        }
        i = i + 1;
    }
    assert(a@ =~= b@);
    true
}

impl Direction {
    /// The name under which the puzzle server knows this direction.
    pub fn as_str(&self) -> (s: &str)
        ensures
            s@ == direction_name(*self),
    {
        match self {
            Direction::Up => "up",
            Direction::Down => "down",
            Direction::Left => "left",
            Direction::Right => "right",
        }
    }
}

impl Color {
    /// The name under which the puzzle server knows this colour.
    pub fn as_str(&self) -> (s: &str)
        ensures
            s@ == color_name(*self),
    {
        match self {
            Color::R => "red",
            Color::G => "green",
            Color::B => "blue",
            Color::Y => "yellow",
        }
    }

    /// The colour with the given name; the name must be one of the four.
    pub fn from_str(color: &str) -> (c: Self)
        requires
            color_named(color@) is Some,
        ensures
            Some(c) == color_named(color@),
    {
        match Color::from_name(color) {
            Some(c) => c,
            None => {
                assert(false);
                Color::R
            },
        }
    }

    /// The colour with the given name, if the name is one of the four.
    pub fn from_name(color: &str) -> (c: Option<Self>)
        ensures
            c == color_named(color@),
    {
        if str_equals(color, "red") {
            Some(Color::R)
        } else if str_equals(color, "green") {
            Some(Color::G)
        } else if str_equals(color, "blue") {
            Some(Color::B)
        } else if str_equals(color, "yellow") {
            Some(Color::Y)
        } else {
            None
        }
    }

    /// The slot of this colour in arrays indexed by colour.
    pub fn index(&self) -> (i: usize)
        ensures
            i == color_index(*self),
    {
        match self {
            Color::R => 0,
            Color::G => 1,
            Color::B => 2,
            Color::Y => 3,
        }
    }
}

/// The colour in slot `i` of arrays indexed by colour.
pub fn color_from_index(i: usize) -> (c: Color)
    requires
        i < 4,
    ensures
        c == color_at(i as int),
        color_index(c) == i,
{
    match i {
        0 => Color::R,
        1 => Color::G,
        2 => Color::B,
        _ => Color::Y,
    }
}

/// The direction in slot `i` of the choice up, down, left, right.
pub fn direction_from_index(i: usize) -> (d: Direction)
    requires
        i < 4,
    ensures
        d == direction_at(i as int),
        direction_index(d) == i,
{
    match i {
        0 => Direction::Up,
        1 => Direction::Down,
        2 => Direction::Left,
        _ => Direction::Right,
    }
}

/// A cell of the board: `x` counts columns from the left, `y` rows from the top.
#[derive(Clone, Copy, PartialEq, Eq, Structural, Debug)]
pub struct Position {
    pub x: u8,
    pub y: u8,
}

impl Position {
    pub fn new(x: u8, y: u8) -> (p: Self)
        ensures
            p.x == x,
            p.y == y,
    {
        Position { x, y }
    }

    /// Whether the cell lies on the 16 x 16 board.
    pub open spec fn on_board(self) -> bool {
        self.x < CELLS && self.y < CELLS
    }
}

} // verus!
