//! The answer sent back to the puzzle server.
use vstd::prelude::*;
use crate::board::Board;
use crate::config::JsonConfig;
use crate::pieces::{color_name, direction_name, Color, Direction};

verus! {

/// The solution of one board.
#[allow(non_snake_case)]
pub struct JsonSolutionEntry {
    /// The goal as `(row, column, colour)`.
    pub goal: (u8, u8, String),
    pub goalColor: String,
    /// The moves, as colour name, direction name, colour name, ...
    pub solution: Vec<String>,
}

/// The answer to a challenge.
#[allow(non_snake_case)]
pub struct JsonSolution {
    pub remainingPuzzle: u64,
    pub totalMoves: u64,
    pub store: Vec<JsonSolutionEntry>,
    pub config: String,
    pub challengeId: u64,
    pub name: String,
}

/// The moves written out: for each move the colour's name, then the direction's.
pub open spec fn move_names(moves: Seq<(Color, Direction)>) -> Seq<Seq<char>> {
    Seq::new(
        2 * moves.len(),
        |i: int|
            if i % 2 == 0 {
                color_name(moves[i / 2].0)
            } else {
                direction_name(moves[i / 2].1)
            },
    )
}

/// The strings' characters.
pub open spec fn string_views(v: Seq<String>) -> Seq<Seq<char>> {
    v.map_values(|s: String| s@)
}

/// `e` is the entry for `board` solved by `moves`.
pub open spec fn entry_matches(e: JsonSolutionEntry, board: Board, moves: Seq<(Color, Direction)>) -> bool {
    &&& e.goal.0 == board.goal.y
    &&& e.goal.1 == board.goal.x
    &&& e.goal.2@ == color_name(board.goal_color)
    &&& e.goalColor@ == color_name(board.goal_color)
    &&& string_views(e.solution@) == move_names(moves)
}

/// The characters of the `i`-th string.
pub open spec fn e_names(v: Seq<String>, i: int) -> Seq<char> {
    v[i]@
}

/// Move `k` is written at places `2k` (its colour's name) and `2k + 1` (its
/// direction's name), whatever the moves around it are.
pub proof fn lemma_move_names(moves: Seq<(Color, Direction)>)
    ensures
        move_names(moves).len() == 2 * moves.len(),
        forall|k: int|
            0 <= k < moves.len() ==> move_names(moves)[2 * k] == color_name((#[trigger] moves[k]).0)
                && move_names(moves)[2 * k + 1] == direction_name(moves[k].1),
{
    assert forall|k: int| 0 <= k < moves.len() implies move_names(moves)[2 * k] == color_name((#[trigger] moves[k]).0)
        && move_names(moves)[2 * k + 1] == direction_name(moves[k].1) by {
        assert((2 * k) / 2 == k && (2 * k) % 2 == 0);
        assert((2 * k + 1) / 2 == k && (2 * k + 1) % 2 == 1);
    }
}

/// The moves of solutions are counted board by board: no solutions count no
/// moves, and one more solution adds its length.
pub proof fn lemma_total_moves_push(solutions: Seq<Vec<(Color, Direction)>>, v: Vec<(Color, Direction)>)
    ensures
        total_moves(Seq::<Vec<(Color, Direction)>>::empty()) == 0,
        total_moves(solutions.push(v)) == total_moves(solutions) + v@.len(),
{
    assert(solutions.push(v).drop_last() =~= solutions);
}

/// The number of moves of all the solutions together.
pub open spec fn total_moves(solutions: Seq<Vec<(Color, Direction)>>) -> int
    decreases solutions.len(),
{
    if solutions.len() == 0 {
        0
    } else {
        total_moves(solutions.drop_last()) + solutions.last()@.len()
    }
}

/// The entry for `board` solved by `solution`.
pub fn solution_entry(board: &Board, solution: &Vec<(Color, Direction)>) -> (e: JsonSolutionEntry)
    ensures
        entry_matches(e, *board, solution@),
        e.solution@.len() == 2 * solution@.len(),
        forall|k: int|
            0 <= k < solution@.len() ==> e.solution@[2 * k]@ == color_name((#[trigger] solution@[k]).0)
                && e.solution@[2 * k + 1]@ == direction_name(solution@[k].1),
{
    let goal_color = board.goal_color.as_str().to_owned();
    let mut sol: Vec<String> = Vec::new();
    let mut i: usize = 0;
    while i < solution.len()
        invariant
            i <= solution@.len(),
            string_views(sol@) == move_names(solution@.subrange(0, i as int)),
        decreases solution@.len() - i,
    {
        let (c, d) = solution[i];
        let ghost before = sol@;
        sol.push(c.as_str().to_owned());
        sol.push(d.as_str().to_owned());
        proof {
            let next = solution@.subrange(0, i + 1);
            assert(move_names(solution@.subrange(0, i as int)).len() == 2 * i);
            assert(sol@.len() == 2 * i + 2);
            assert(sol@[2 * i]@ == color_name(c));
            assert(sol@[2 * i + 1]@ == direction_name(d));
            assert(solution@[i as int] == (c, d));
            assert forall|j: int| 0 <= j < 2 * (i + 1) implies #[trigger] string_views(sol@)[j]
                == move_names(next)[j] by {
                if j < 2 * i {
                    assert(sol@[j] == before[j]);
                    assert(string_views(before)[j] == move_names(solution@.subrange(0, i as int))[j]);
                    assert(next[j / 2] == solution@.subrange(0, i as int)[j / 2]);
                } else {
                    assert(j / 2 == i);
                    assert(next[j / 2] == (c, d));
                }
            }
            assert(string_views(sol@) =~= move_names(next));
        }
        i = i + 1;
    }
    assert(solution@.subrange(0, solution@.len() as int) =~= solution@);
    proof {
        lemma_move_names(solution@);
        assert forall|k: int| 0 <= k < solution@.len() implies e_names(sol@, 2 * k) == color_name((#[trigger] solution@[k]).0)
            && e_names(sol@, 2 * k + 1) == direction_name(solution@[k].1) by {
            assert(string_views(sol@)[2 * k] == move_names(solution@)[2 * k]);
            assert(string_views(sol@)[2 * k + 1] == move_names(solution@)[2 * k + 1]);
        }
    }
    JsonSolutionEntry {
        goal: (board.goal.y, board.goal.x, goal_color.clone()),
        goalColor: goal_color,
        solution: sol,
    }
}

/// The answer to the challenge `config`: one entry per board, in the order
/// opposite to `boards`, with the moves counted.
pub fn build_submission(
    config: &JsonConfig,
    boards: &Vec<Board>,
    solutions: &Vec<Vec<(Color, Direction)>>,
) -> (r: JsonSolution)
    requires
        boards@.len() == solutions@.len(),
        total_moves(solutions@) <= u64::MAX,
    ensures
        r.remainingPuzzle == 0,
        r.totalMoves == total_moves(solutions@),
        r.config@ == config.config@,
        r.challengeId == config.challengeId,
        r.name@ == "not_a_bot"@,
        r.store@.len() == boards@.len(),
        forall|j: int|
            0 <= j < boards@.len() ==> entry_matches(
                #[trigger] r.store@[j],
                boards@[boards@.len() - 1 - j],
                solutions@[boards@.len() - 1 - j]@,
            ),
{
    let mut moves: u64 = 0;
    let mut entries: Vec<JsonSolutionEntry> = Vec::new();
    let mut i: usize = 0;
    while i < boards.len()
        invariant
            i <= boards@.len(),
            boards@.len() == solutions@.len(),
            total_moves(solutions@) <= u64::MAX,
            moves == total_moves(solutions@.subrange(0, i as int)),
            entries@.len() == i,
            forall|j: int| 0 <= j < i ==> entry_matches(#[trigger] entries@[j], boards@[j], solutions@[j]@),
        decreases boards@.len() - i,
    {
        proof {
            assert(solutions@.subrange(0, i + 1).drop_last() =~= solutions@.subrange(0, i as int));
            lemma_total_moves_prefix(solutions@, i + 1);
        }
        moves = moves + solutions[i].len() as u64;
        entries.push(solution_entry(&boards[i], &solutions[i]));
        i = i + 1;
    }
    assert(solutions@.subrange(0, i as int) =~= solutions@);
    let n = entries.len();
    let mut store: Vec<JsonSolutionEntry> = Vec::new();
    while entries.len() > 0
        invariant
            n == boards@.len(),
            store@.len() + entries@.len() == n,
            forall|j: int| 0 <= j < entries@.len() ==> entry_matches(#[trigger] entries@[j], boards@[j], solutions@[j]@),
            forall|j: int| 0 <= j < store@.len() ==> entry_matches(#[trigger] store@[j], boards@[n - 1 - j], solutions@[n - 1 - j]@),
        decreases entries@.len(),
    {
        let e = entries.pop().unwrap();
        store.push(e);
    }
    JsonSolution {
        challengeId: config.challengeId,
        config: config.config.clone(),
        name: "not_a_bot".to_owned(),
        remainingPuzzle: 0,
        store: store,
        totalMoves: moves,
    }
}

/// The moves of a prefix count no more than those of all the solutions.
proof fn lemma_total_moves_prefix(solutions: Seq<Vec<(Color, Direction)>>, k: int)
    requires
        0 <= k <= solutions.len(),
    ensures
        total_moves(solutions.subrange(0, k)) <= total_moves(solutions),
    decreases solutions.len(),
{
    if k < solutions.len() {
        assert(solutions.drop_last().subrange(0, k) =~= solutions.subrange(0, k));
        lemma_total_moves_prefix(solutions.drop_last(), k);
    } else {
        assert(solutions.subrange(0, k) =~= solutions);
    }
}

} // verus!
