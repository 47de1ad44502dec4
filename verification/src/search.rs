//! Breadth-first search for the shortest sequence of moves that brings the
//! goal's robot onto the goal.
use vstd::prelude::*;
use vstd::set_lib::{lemma_int_range, lemma_len_subset, set_int_range};
use crate::bitset::CompactBoolArray;
use crate::board::{all_on_board, apply_move, lemma_move_stays_on_board, replay, Board};
use crate::compressed::{
    lemma_key_bounds, decoded_color, decoded_dir, decoded_key, decoded_parent, decoded_positions, encode,
    lemma_key_injective, lemma_pack_roundtrip, positions_key, CompressedState,
};
use crate::pieces::{
    color_at, color_from_index, color_index, direction_at, direction_from_index, direction_index, Color,
    Direction, Position,
};
use crate::state::State;

verus! {

/// The configuration stored at index `i` of the search.
pub open spec fn cfg(s: Seq<CompressedState>, i: int) -> Seq<Position> {
    decoded_positions(s[i].data@)
}

/// The index of the configuration from which the one at `i` was reached.
pub open spec fn parent_of(s: Seq<CompressedState>, i: int) -> int {
    decoded_parent(s[i].data@)
}

/// The move that reached the configuration at index `i`.
pub open spec fn move_of(s: Seq<CompressedState>, i: int) -> (Color, Direction) {
    (decoded_color(s[i].data@), decoded_dir(s[i].data@))
}

/// The key of the configuration at index `i`.
pub open spec fn key_of(s: Seq<CompressedState>, i: int) -> int {
    decoded_key(s[i].data@)
}

/// The moves that lead from the start (index 0) to index `i`, following parents.
pub open spec fn path_to(s: Seq<CompressedState>, i: int) -> Seq<(Color, Direction)>
    decreases i,
{
    if 0 < i < s.len() && 0 <= parent_of(s, i) < i {
        path_to(s, parent_of(s, i)).push(move_of(s, i))
    } else {
        Seq::empty()
    }
}

/// The `k`-th of the sixteen moves, in the order the search tries them:
/// colour by colour, and for each colour up, down, left, right.
pub open spec fn move_at(k: int) -> (Color, Direction) {
    (color_at(k / 4), direction_at(k % 4))
}

/// Some stored configuration has key `k`.
pub open spec fn key_known(s: Seq<CompressedState>, k: int) -> bool {
    exists|t: int| 0 <= t < s.len() && #[trigger] key_of(s, t) == k
}

/// The configuration `c` is stored, at an index no deeper than `bound` moves.
pub open spec fn found_within(s: Seq<CompressedState>, c: Seq<Position>, bound: nat) -> bool {
    exists|t: int| 0 <= t < s.len() && #[trigger] cfg(s, t) == c && path_to(s, t).len() <= bound
}

/// Every move from the configuration at index `j` leads to a stored
/// configuration at most one move deeper.
pub open spec fn expanded(board: Board, s: Seq<CompressedState>, j: int) -> bool {
    forall|m: (Color, Direction)|
        #[trigger] found_within(s, apply_move(board, cfg(s, j), m), path_to(s, j).len() + 1)
}

/// The stored configurations form a tree of moves rooted at the start.
pub open spec fn tree_wf(board: Board, s: Seq<CompressedState>) -> bool {
    &&& s.len() >= 1
    &&& cfg(s, 0) == board.starts@
    &&& forall|i: int|
        0 < i < s.len() ==> 0 <= #[trigger] parent_of(s, i) < i && cfg(s, i) == apply_move(
            board,
            cfg(s, parent_of(s, i)),
            move_of(s, i),
        )
}

/// What the search keeps true, apart from the absence of goals.
pub open spec fn bfs_core(board: Board, s: Seq<CompressedState>, known: Seq<bool>, ind: int) -> bool {
    &&& tree_wf(board, s)
    &&& s.len() <= 0x1_0000_0000
    &&& 0 <= ind <= s.len()
    &&& known.len() == 0x1_0000_0000
    &&& forall|i: int, j: int| 0 <= i < j < s.len() ==> #[trigger] key_of(s, i) != #[trigger] key_of(s, j)
    &&& forall|k: int| 0 <= k < 0x1_0000_0000 ==> (#[trigger] known[k] <==> key_known(s, k))
    &&& forall|i: int, j: int|
        0 <= i <= j < s.len() ==> (#[trigger] path_to(s, i)).len() <= (#[trigger] path_to(s, j)).len()
    &&& ind < s.len() ==> forall|j: int|
        0 <= j < s.len() ==> (#[trigger] path_to(s, j)).len() <= path_to(s, ind).len() + 1
    &&& forall|j: int| 0 <= j < ind ==> #[trigger] expanded(board, s, j)
}

/// No stored configuration but the start, below index `n`, has the goal reached.
pub open spec fn no_goal_below(board: Board, s: Seq<CompressedState>, n: int) -> bool {
    forall|i: int| 0 < i < n ==> !board.goal_reached(#[trigger] cfg(s, i))
}

/// Stored bytes always stand for robots on the board, and their key is the
/// key of those robots.
pub proof fn lemma_decoded(d: Seq<u8>)
    requires
        d.len() == 9,
    ensures
        all_on_board(decoded_positions(d)),
        positions_key(decoded_positions(d)) == decoded_key(d),
        0 <= decoded_key(d) < 0x1_0000_0000,
{
    let ps = decoded_positions(d);
    assert(ps[0].on_board() && ps[1].on_board() && ps[2].on_board() && ps[3].on_board());
}

/// Following parents from any stored configuration replays to it from the start.
pub proof fn lemma_replay_path(board: Board, s: Seq<CompressedState>, i: int)
    requires
        tree_wf(board, s),
        0 <= i < s.len(),
    ensures
        replay(board, board.starts@, path_to(s, i)) == cfg(s, i),
    decreases i,
{
    if i > 0 {
        let p = parent_of(s, i);
        lemma_replay_path(board, s, p);
        assert(path_to(s, i).drop_last() =~= path_to(s, p));
    }
}

/// Appending to the search keeps the paths of the configurations stored before.
pub proof fn lemma_path_prefix(s: Seq<CompressedState>, t: Seq<CompressedState>, i: int)
    requires
        s.len() <= t.len(),
        forall|j: int| 0 <= j < s.len() ==> t[j] == s[j],
        0 <= i < s.len(),
    ensures
        path_to(t, i) == path_to(s, i),
    decreases i,
{
    if 0 < i && 0 <= parent_of(s, i) < i {
        lemma_path_prefix(s, t, parent_of(s, i));
    }
}

/// Appending to the search keeps what was found.
pub proof fn lemma_found_push(s: Seq<CompressedState>, x: CompressedState, c: Seq<Position>, bound: nat)
    requires
        found_within(s, c, bound),
    ensures
        found_within(s.push(x), c, bound),
{
    let t = choose|t: int| 0 <= t < s.len() && #[trigger] cfg(s, t) == c && path_to(s, t).len() <= bound;
    lemma_path_prefix(s, s.push(x), t);
    assert(cfg(s.push(x), t) == c);
}

/// Distinct keys below 2^32 are at most 2^32 many.
pub proof fn lemma_distinct_keys_bound(s: Seq<CompressedState>)
    requires
        forall|i: int| 0 <= i < s.len() ==> (#[trigger] s[i]).data@.len() == 9,
        forall|i: int, j: int| 0 <= i < j < s.len() ==> #[trigger] key_of(s, i) != #[trigger] key_of(s, j),
    ensures
        s.len() <= 0x1_0000_0000,
{
    let ks = Seq::new(s.len(), |i: int| key_of(s, i));
    assert forall|i: int, j: int| 0 <= i < ks.len() && 0 <= j < ks.len() && i != j implies ks[i] != ks[j] by {
        if i < j {
            assert(key_of(s, i) != key_of(s, j));
        } else {
            assert(key_of(s, j) != key_of(s, i));
        }
    }
    assert(ks.no_duplicates());
    ks.unique_seq_to_set();
    assert forall|k: int| ks.to_set().contains(k) implies set_int_range(0, 0x1_0000_0000).contains(k) by {
        let i = choose|i: int| 0 <= i < ks.len() && ks[i] == k;
        lemma_decoded(s[i].data@);
    }
    lemma_int_range(0, 0x1_0000_0000);
    lemma_len_subset(ks.to_set(), set_int_range(0, 0x1_0000_0000));
}

/// Every configuration that `m` moves reach is stored no deeper than `m.len()`,
/// as long as the configurations shallower than `d` have all been expanded.
pub proof fn lemma_reach(board: Board, s: Seq<CompressedState>, ind: int, d: int, m: Seq<(Color, Direction)>)
    requires
        tree_wf(board, s),
        0 <= ind <= s.len(),
        forall|j: int| 0 <= j < ind ==> #[trigger] expanded(board, s, j),
        forall|t: int| 0 <= t < s.len() && (#[trigger] path_to(s, t)).len() < d ==> t < ind,
        m.len() <= d,
    ensures
        found_within(s, replay(board, board.starts@, m), m.len()),
    decreases m.len(),
{
    if m.len() == 0 {
        assert(cfg(s, 0) == replay(board, board.starts@, m));
        assert(path_to(s, 0).len() == 0);
    } else {
        let prev = m.drop_last();
        lemma_reach(board, s, ind, d, prev);
        let t = choose|t: int|
            0 <= t < s.len() && #[trigger] cfg(s, t) == replay(board, board.starts@, prev) && path_to(s, t).len() <= prev.len();
        assert(t < ind);
        assert(expanded(board, s, t));
        assert(found_within(s, apply_move(board, cfg(s, t), m.last()), path_to(s, t).len() + 1));
        let u = choose|u: int|
            0 <= u < s.len() && #[trigger] cfg(s, u) == apply_move(board, cfg(s, t), m.last()) && path_to(s, u).len() <= path_to(s, t).len() + 1;
        assert(cfg(s, u) == replay(board, board.starts@, m));
    }
}

/// The sixteen moves, numbered as the search tries them, cover every move.
pub proof fn lemma_move_at_index(m: (Color, Direction))
    ensures
        0 <= 4 * color_index(m.0) + direction_index(m.1) < 16,
        move_at(4 * color_index(m.0) + direction_index(m.1)) == m,
{
}

/// Storing a newly reached configuration keeps what the search maintains.
pub proof fn lemma_push(
    board: Board,
    s: Seq<CompressedState>,
    known: Seq<bool>,
    ind: int,
    x: CompressedState,
    ns: State,
)
    requires
        bfs_core(board, s, known, ind),
        no_goal_below(board, s, s.len() as int),
        ind < s.len(),
        x.data@ == encode(ns),
        ns.parent_id == ind,
        ns.positions@ == apply_move(board, cfg(s, ind), (ns.color, ns.dir)),
        !known[positions_key(ns.positions@)],
    ensures
        bfs_core(board, s.push(x), known.update(positions_key(ns.positions@), true), ind),
        no_goal_below(board, s.push(x), s.len() as int),
        cfg(s.push(x), s.len() as int) == ns.positions@,
        cfg(s.push(x), ind) == cfg(s, ind),
        path_to(s.push(x), s.len() as int).len() == path_to(s, ind).len() + 1,
        path_to(s.push(x), s.len() as int) == path_to(s, ind).push((ns.color, ns.dir)),
        parent_of(s.push(x), s.len() as int) == ind,
        move_of(s.push(x), s.len() as int) == (ns.color, ns.dir),
        key_of(s.push(x), s.len() as int) == positions_key(ns.positions@),
        path_to(s.push(x), ind) == path_to(s, ind),
{
    let s2 = s.push(x);
    let n = s.len() as int;
    let newkey = positions_key(ns.positions@);
    let known2 = known.update(newkey, true);
    lemma_decoded(s[ind].data@);
    lemma_move_stays_on_board(board, cfg(s, ind), (ns.color, ns.dir));
    lemma_pack_roundtrip(ns);
    lemma_key_bounds(ns.positions@);
    assert(cfg(s2, n) == ns.positions@);
    assert(parent_of(s2, n) == ind);
    assert(move_of(s2, n) == (ns.color, ns.dir));
    assert(key_of(s2, n) == newkey);
    assert forall|i: int| 0 <= i < n implies s2[i] == s[i] && #[trigger] path_to(s2, i) == path_to(s, i) by {
        lemma_path_prefix(s, s2, i);
    }
    assert(path_to(s2, ind) == path_to(s, ind));
    assert(0 <= parent_of(s2, n) < n);
    assert(path_to(s2, n) == path_to(s2, ind).push((ns.color, ns.dir)));
    // the tree
    assert forall|i: int| 0 < i < s2.len() implies 0 <= #[trigger] parent_of(s2, i) < i && cfg(s2, i)
        == apply_move(board, cfg(s2, parent_of(s2, i)), move_of(s2, i)) by {
        if i < n {
            assert(s2[i] == s[i]);
            assert(s2[parent_of(s, i)] == s[parent_of(s, i)]);
        }
    }
    assert(tree_wf(board, s2));
    // keys stay distinct
    assert(!key_known(s, newkey));
    assert forall|i: int, j: int| 0 <= i < j < s2.len() implies #[trigger] key_of(s2, i) != #[trigger] key_of(s2, j) by {
        assert(s2[i] == s[i]);
        assert(key_of(s2, i) == key_of(s, i));
        if j < n {
            assert(s2[j] == s[j]);
            assert(key_of(s2, j) == key_of(s, j));
            assert(key_of(s, i) != key_of(s, j));
        } else {
            if key_of(s, i) == newkey {
                assert(key_known(s, newkey));
            }
        }
    }
    lemma_distinct_keys_bound(s2);
    // the flags
    assert forall|k: int| 0 <= k < 0x1_0000_0000 implies (#[trigger] known2[k] <==> key_known(s2, k)) by {
        if key_known(s, k) {
            let t = choose|t: int| 0 <= t < s.len() && #[trigger] key_of(s, t) == k;
            assert(s2[t] == s[t]);
            assert(key_of(s2, t) == k);
        }
        if key_known(s2, k) {
            let t = choose|t: int| 0 <= t < s2.len() && #[trigger] key_of(s2, t) == k;
            if t < n {
                assert(s2[t] == s[t]);
                assert(key_of(s, t) == k);
            }
        }
    }
    // depths
    assert forall|i: int, j: int| 0 <= i <= j < s2.len() implies (#[trigger] path_to(s2, i)).len()
        <= (#[trigger] path_to(s2, j)).len() by {
        if j < n {
            assert(path_to(s2, i) == path_to(s, i));
            assert(path_to(s2, j) == path_to(s, j));
        } else if i < n {
            assert(path_to(s2, i) == path_to(s, i));
        }
    }
    assert forall|j: int| 0 <= j < s2.len() implies (#[trigger] path_to(s2, j)).len() <= path_to(s2, ind).len() + 1 by {
        if j < n {
            assert(path_to(s2, j) == path_to(s, j));
        }
    }
    // what was expanded stays expanded
    assert forall|j: int| 0 <= j < ind implies #[trigger] expanded(board, s2, j) by {
        assert(expanded(board, s, j));
        assert(cfg(s2, j) == cfg(s, j));
        assert(path_to(s2, j) == path_to(s, j));
        assert forall|m: (Color, Direction)| #[trigger] found_within(s2, apply_move(board, cfg(s2, j), m), path_to(s2, j).len() + 1) by {
            assert(found_within(s, apply_move(board, cfg(s, j), m), path_to(s, j).len() + 1));
            lemma_found_push(s, x, apply_move(board, cfg(s, j), m), path_to(s, j).len() + 1);
        }
    }
    assert forall|i: int| 0 < i < n implies !board.goal_reached(#[trigger] cfg(s2, i)) by {
        assert(s2[i] == s[i]);
        assert(!board.goal_reached(cfg(s, i)));
    }
}

/// The position of a move in the order in which the search tries moves.
pub open spec fn move_rank(m: (Color, Direction)) -> int {
    4 * color_index(m.0) + direction_index(m.1)
}

/// `a` comes before `b`, two sequences of moves of the same length, in the
/// order in which the search tries moves: at the first move where they
/// differ, `a`'s move is tried first.
pub open spec fn lex_lt(a: Seq<(Color, Direction)>, b: Seq<(Color, Direction)>) -> bool
    decreases a.len(),
{
    if a.len() == 0 || a.len() != b.len() {
        false
    } else {
        lex_lt(a.drop_last(), b.drop_last()) || (a.drop_last() == b.drop_last() && move_rank(a.last())
            < move_rank(b.last()))
    }
}

/// `a` is `b` or comes before it.
pub open spec fn lex_le(a: Seq<(Color, Direction)>, b: Seq<(Color, Direction)>) -> bool {
    a == b || lex_lt(a, b)
}

proof fn lemma_lex_push(a: Seq<(Color, Direction)>, b: Seq<(Color, Direction)>, x: (Color, Direction), y: (Color, Direction))
    requires
        a.len() == b.len(),
        lex_lt(a, b) || (a == b && move_rank(x) < move_rank(y)),
    ensures
        lex_lt(a.push(x), b.push(y)),
{
    assert(a.push(x).drop_last() =~= a);
    assert(b.push(y).drop_last() =~= b);
}

proof fn lemma_lex_trans(a: Seq<(Color, Direction)>, b: Seq<(Color, Direction)>, c: Seq<(Color, Direction)>)
    requires
        lex_lt(a, b),
        lex_le(b, c),
    ensures
        lex_lt(a, c),
    decreases a.len(),
{
    if b != c {
        if lex_lt(a.drop_last(), b.drop_last()) && lex_lt(b.drop_last(), c.drop_last()) {
            lemma_lex_trans(a.drop_last(), b.drop_last(), c.drop_last());
        }
    }
}

proof fn lemma_rank_injective(x: (Color, Direction), y: (Color, Direction))
    requires
        move_rank(x) == move_rank(y),
    ensures
        x == y,
{
}

/// What the search keeps true of the order in which it stores
/// configurations, while it has tried the first `k` moves from index `ind`.
pub open spec fn bfs_order(board: Board, s: Seq<CompressedState>, ind: int, k: int) -> bool {
    &&& forall|i: int, j: int|
        0 <= i < j < s.len() && (#[trigger] path_to(s, i)).len() == (#[trigger] path_to(s, j)).len()
            ==> lex_lt(path_to(s, i), path_to(s, j))
    &&& forall|t: int, m: Seq<(Color, Direction)>|
        #![trigger replay(board, board.starts@, m), path_to(s, t)]
        0 <= t < s.len() && m.len() == path_to(s, t).len() && replay(board, board.starts@, m) == cfg(s, t)
            ==> lex_le(path_to(s, t), m)
    &&& forall|i: int|
        0 < i < s.len() ==> #[trigger] parent_of(s, i) <= ind && (parent_of(s, i) == ind
            ==> move_rank(move_of(s, i)) < k)
}

/// When the configuration reached from index `ind` by the move tried `k`-th
/// is new, storing it keeps the order of the search.
#[verifier::rlimit(50)]
pub proof fn lemma_push_order(
    board: Board,
    s: Seq<CompressedState>,
    known: Seq<bool>,
    s2: Seq<CompressedState>,
    ind: int,
    k: int,
)
    requires
        bfs_core(board, s, known, ind),
        bfs_order(board, s, ind, k),
        ind < s.len(),
        0 <= k < 16,
        forall|k2: int| 0 <= k2 < k ==> #[trigger] found_within(s, apply_move(board, cfg(s, ind), move_at(k2)), path_to(s, ind).len() + 1),
        s2.len() == s.len() + 1,
        forall|i: int| 0 <= i < s.len() ==> s2[i] == s[i],
        cfg(s2, s.len() as int) == apply_move(board, cfg(s, ind), move_at(k)),
        parent_of(s2, s.len() as int) == ind,
        move_of(s2, s.len() as int) == move_at(k),
        path_to(s2, s.len() as int) == path_to(s, ind).push(move_at(k)),
        !key_known(s, positions_key(cfg(s2, s.len() as int))),
    ensures
        bfs_order(board, s2, ind, k + 1),
{
    let n = s.len() as int;
    let d = path_to(s, ind).len();
    let newc = cfg(s2, n);
    lemma_move_at_index(move_at(k));
    assert forall|i: int| 0 <= i < n implies #[trigger] path_to(s2, i) == path_to(s, i) && cfg(s2, i) == cfg(s, i) by {
        lemma_path_prefix(s, s2, i);
    }
    // no stored configuration is the new one
    assert forall|t: int| 0 <= t < n implies #[trigger] cfg(s, t) != newc by {
        lemma_decoded(s[t].data@);
        if cfg(s, t) == newc {
            assert(key_of(s, t) == positions_key(newc));
        }
    }
    // every configuration stored deeper than `ind` was reached from a parent no later than `ind`
    assert forall|i: int, j: int|
        0 <= i < j < s2.len() && (#[trigger] path_to(s2, i)).len() == (#[trigger] path_to(s2, j)).len()
        implies lex_lt(path_to(s2, i), path_to(s2, j)) by {
        if j < n {
            assert(path_to(s2, i) == path_to(s, i));
            assert(path_to(s2, j) == path_to(s, j));
        } else {
            assert(path_to(s2, i) == path_to(s, i));
            let p = parent_of(s, i);
            assert(i > 0);
            assert(p <= ind);
            assert(path_to(s, i) == path_to(s, p).push(move_of(s, i)));
            if p < ind {
                assert(path_to(s, p).len() <= path_to(s, ind).len());
                assert(path_to(s, p).len() == path_to(s, ind).len());
                assert(lex_lt(path_to(s, p), path_to(s, ind)));
                lemma_lex_push(path_to(s, p), path_to(s, ind), move_of(s, i), move_at(k));
            } else {
                lemma_lex_push(path_to(s, p), path_to(s, ind), move_of(s, i), move_at(k));
            }
        }
    }
    assert forall|t: int, m: Seq<(Color, Direction)>|
        #![trigger replay(board, board.starts@, m), path_to(s2, t)]
        0 <= t < s2.len() && m.len() == path_to(s2, t).len() && replay(board, board.starts@, m) == cfg(s2, t)
        implies lex_le(path_to(s2, t), m) by {
        if t < n {
            assert(path_to(s2, t) == path_to(s, t));
        } else {
            let m1 = m.drop_last();
            let y = m.last();
            assert forall|t2: int| 0 <= t2 < s.len() && (#[trigger] path_to(s, t2)).len() < d implies t2 < ind by {
                if t2 >= ind {
                    assert(path_to(s, ind).len() <= path_to(s, t2).len());
                }
            }
            lemma_reach(board, s, ind, d as int, m1);
            let u = replay(board, board.starts@, m1);
            let t1 = choose|t1: int| 0 <= t1 < s.len() && #[trigger] cfg(s, t1) == u && path_to(s, t1).len() <= m1.len();
            assert(apply_move(board, u, y) == newc);
            if t1 < ind {
                assert(expanded(board, s, t1));
                assert(found_within(s, apply_move(board, cfg(s, t1), y), path_to(s, t1).len() + 1));
                let w = choose|w: int| 0 <= w < s.len() && #[trigger] cfg(s, w) == apply_move(board, cfg(s, t1), y) && path_to(s, w).len() <= path_to(s, t1).len() + 1;
                assert(cfg(s, w) != newc);
            } else {
                assert(path_to(s, ind).len() <= path_to(s, t1).len());
                assert(lex_le(path_to(s, t1), m1));
                if t1 > ind {
                    assert(lex_lt(path_to(s, ind), path_to(s, t1)));
                    lemma_lex_trans(path_to(s, ind), path_to(s, t1), m1);
                    lemma_lex_push(path_to(s, ind), m1, move_at(k), y);
                    assert(m =~= m1.push(y));
                } else if path_to(s, ind) != m1 {
                    lemma_lex_push(path_to(s, ind), m1, move_at(k), y);
                    assert(m =~= m1.push(y));
                } else {
                    lemma_move_at_index(y);
                    let ky = move_rank(y);
                    if ky < k {
                        assert(found_within(s, apply_move(board, cfg(s, ind), move_at(ky)), path_to(s, ind).len() + 1));
                        let w = choose|w: int| 0 <= w < s.len() && #[trigger] cfg(s, w) == apply_move(board, cfg(s, ind), move_at(ky)) && path_to(s, w).len() <= path_to(s, ind).len() + 1;
                        assert(cfg(s, w) != newc);
                    } else if ky == k {
                        lemma_rank_injective(y, move_at(k));
                        assert(m =~= m1.push(y));
                    } else {
                        lemma_lex_push(path_to(s, ind), m1, move_at(k), y);
                        assert(m =~= m1.push(y));
                    }
                }
            }
        }
    }
    assert forall|i: int| 0 < i < s2.len() implies #[trigger] parent_of(s2, i) <= ind && (parent_of(s2, i) == ind
        ==> move_rank(move_of(s2, i)) < k + 1) by {
        if i < n {
            assert(s2[i] == s[i]);
            assert(parent_of(s, i) <= ind);
        }
    }
}

/// Having tried one more move from `ind` without storing anything keeps the order.
pub proof fn lemma_order_next(board: Board, s: Seq<CompressedState>, ind: int, k: int)
    requires
        bfs_order(board, s, ind, k),
    ensures
        bfs_order(board, s, ind, k + 1),
{
    assert forall|i: int| 0 < i < s.len() implies #[trigger] parent_of(s, i) <= ind && (parent_of(s, i) == ind
        ==> move_rank(move_of(s, i)) < k + 1) by {
        assert(parent_of(s, i) <= ind);
    }
}

/// Moving on from `ind` to the next index keeps the order.
pub proof fn lemma_order_advance(board: Board, s: Seq<CompressedState>, ind: int)
    requires
        bfs_order(board, s, ind, 16),
    ensures
        bfs_order(board, s, ind + 1, 0),
{
    assert forall|i: int| 0 < i < s.len() implies #[trigger] parent_of(s, i) <= ind + 1 && (parent_of(s, i) == ind + 1
        ==> move_rank(move_of(s, i)) < 0) by {
        assert(parent_of(s, i) <= ind);
    }
}

/// At the start the order holds: the start is stored alone.
pub proof fn lemma_order_start(board: Board, s: Seq<CompressedState>)
    requires
        s.len() == 1,
        cfg(s, 0) == board.starts@,
    ensures
        bfs_order(board, s, 0, 0),
{
    assert forall|t: int, m: Seq<(Color, Direction)>|
        #![trigger replay(board, board.starts@, m), path_to(s, t)]
        0 <= t < s.len() && m.len() == path_to(s, t).len() && replay(board, board.starts@, m) == cfg(s, t)
        implies lex_le(path_to(s, t), m) by {
        assert(m =~= path_to(s, t));
    }
}

/// The path to the first goal found is, among the shortest solutions, the
/// first in the order in which the search tries moves.
#[verifier::rlimit(50)]
pub proof fn lemma_found_first(board: Board, s: Seq<CompressedState>, known: Seq<bool>, ind: int, k: int, n: int)
    requires
        bfs_core(board, s, known, ind),
        bfs_order(board, s, ind, k + 1),
        ind < s.len(),
        0 <= k < 16,
        forall|k2: int| 0 <= k2 < k + 1 ==> #[trigger] found_within(s, apply_move(board, cfg(s, ind), move_at(k2)), path_to(s, ind).len() + 1),
        n == s.len() - 1,
        n > 0,
        no_goal_below(board, s, n),
        board.goal_reached(cfg(s, n)),
        path_to(s, n) == path_to(s, ind).push(move_at(k)),
    ensures
        forall|m: Seq<(Color, Direction)>|
            #[trigger] board.solved_by(m) && m.len() == path_to(s, n).len() ==> lex_le(path_to(s, n), m),
{
    let d = path_to(s, ind).len();
    lemma_decoded(s[0].data@);
    assert forall|m: Seq<(Color, Direction)>|
        #[trigger] board.solved_by(m) && m.len() == path_to(s, n).len() implies lex_le(path_to(s, n), m) by {
        let g = replay(board, board.starts@, m);
        let m1 = m.drop_last();
        let y = m.last();
        assert(m =~= m1.push(y));
        assert(g == apply_move(board, replay(board, board.starts@, m1), y));
        assert forall|t2: int| 0 <= t2 < s.len() && (#[trigger] path_to(s, t2)).len() < d implies t2 < ind by {
            if t2 >= ind {
                assert(path_to(s, ind).len() <= path_to(s, t2).len());
            }
        }
        lemma_reach(board, s, ind, d as int, m1);
        let u = replay(board, board.starts@, m1);
        let t1 = choose|t1: int| 0 <= t1 < s.len() && #[trigger] cfg(s, t1) == u && path_to(s, t1).len() <= m1.len();
        // if the goal configuration `g` is already stored, it is the one at `n`
        assert((exists|b: nat| found_within(s, g, b)) ==> lex_le(path_to(s, n), m)) by {
            if exists|b: nat| found_within(s, g, b) {
                let b = choose|b: nat| found_within(s, g, b);
                let w = choose|w: int| 0 <= w < s.len() && #[trigger] cfg(s, w) == g && path_to(s, w).len() <= b;
                assert(w != 0);
                if w < n {
                    assert(!board.goal_reached(cfg(s, w)));
                }
                assert(w == n);
            }
        }
        if t1 < ind {
            assert(expanded(board, s, t1));
            assert(found_within(s, apply_move(board, cfg(s, t1), y), path_to(s, t1).len() + 1));
            assert(found_within(s, g, path_to(s, t1).len() + 1));
        } else {
            assert(path_to(s, ind).len() <= path_to(s, t1).len());
            assert(lex_le(path_to(s, t1), m1));
            if t1 > ind {
                assert(lex_lt(path_to(s, ind), path_to(s, t1)));
                lemma_lex_trans(path_to(s, ind), path_to(s, t1), m1);
                lemma_lex_push(path_to(s, ind), m1, move_at(k), y);
            } else if path_to(s, ind) != m1 {
                lemma_lex_push(path_to(s, ind), m1, move_at(k), y);
            } else {
                lemma_move_at_index(y);
                let ky = move_rank(y);
                if ky <= k {
                    assert(found_within(s, apply_move(board, cfg(s, ind), move_at(ky)), path_to(s, ind).len() + 1));
                    assert(found_within(s, g, path_to(s, ind).len() + 1));
                } else {
                    lemma_move_at_index(move_at(k));
                    lemma_lex_push(path_to(s, ind), m1, move_at(k), y);
                }
            }
        }
    }
}

/// Storing the new configuration reached from index `ind` by the move tried
/// `k`-th keeps everything the search maintains.
pub proof fn lemma_store(
    board: Board,
    s: Seq<CompressedState>,
    known: Seq<bool>,
    ind: int,
    k: int,
    x: CompressedState,
    ns: State,
)
    requires
        bfs_core(board, s, known, ind),
        bfs_order(board, s, ind, k),
        no_goal_below(board, s, s.len() as int),
        ind < s.len(),
        0 <= k < 16,
        forall|k2: int| 0 <= k2 < k ==> #[trigger] found_within(s, apply_move(board, cfg(s, ind), move_at(k2)), path_to(s, ind).len() + 1),
        x.data@ == encode(ns),
        ns.parent_id == ind,
        (ns.color, ns.dir) == move_at(k),
        ns.positions@ == apply_move(board, cfg(s, ind), move_at(k)),
        !known[positions_key(ns.positions@)],
    ensures
        bfs_core(board, s.push(x), known.update(positions_key(ns.positions@), true), ind),
        bfs_order(board, s.push(x), ind, k + 1),
        no_goal_below(board, s.push(x), s.len() as int),
        forall|k2: int| 0 <= k2 < k + 1 ==> #[trigger] found_within(s.push(x), apply_move(board, cfg(s.push(x), ind), move_at(k2)), path_to(s.push(x), ind).len() + 1),
        cfg(s.push(x), ind) == cfg(s, ind),
        cfg(s.push(x), s.len() as int) == ns.positions@,
        path_to(s.push(x), s.len() as int) == path_to(s, ind).push(move_at(k)),
{
    let s2 = s.push(x);
    lemma_push(board, s, known, ind, x, ns);
    lemma_key_bounds(ns.positions@);
    assert(!key_known(s, positions_key(cfg(s2, s.len() as int))));
    lemma_push_order(board, s, known, s2, ind, k);
    assert forall|k2: int| 0 <= k2 < k + 1 implies #[trigger] found_within(s2, apply_move(board, cfg(s2, ind), move_at(k2)), path_to(s2, ind).len() + 1) by {
        if k2 < k {
            lemma_found_push(s, x, apply_move(board, cfg(s, ind), move_at(k2)), path_to(s, ind).len() + 1);
        } else {
            assert(cfg(s2, s.len() as int) == apply_move(board, cfg(s2, ind), move_at(k2)));
        }
    }
}

/// When the search has expanded everything it stored without meeting the
/// goal, no sequence of moves solves the puzzle.
pub proof fn lemma_exhausted(board: Board, s: Seq<CompressedState>, known: Seq<bool>)
    requires
        bfs_core(board, s, known, s.len() as int),
        no_goal_below(board, s, s.len() as int),
    ensures
        !exists|m: Seq<(Color, Direction)>| #[trigger] board.solved_by(m),
{
    assert forall|m: Seq<(Color, Direction)>| !#[trigger] board.solved_by(m) by {
        if board.solved_by(m) {
            let end = replay(board, board.starts@, m);
            lemma_reach(board, s, s.len() as int, m.len() as int, m);
            let t = choose|t: int| 0 <= t < s.len() && #[trigger] cfg(s, t) == end && path_to(s, t).len() <= m.len();
            assert(t != 0);
            assert(!board.goal_reached(cfg(s, t)));
        }
    }
}

/// The configuration just stored at index `n`, reached while expanding
/// index `ind`, has the goal reached: the path to it solves the puzzle, and
/// no shorter sequence of moves does.
pub proof fn lemma_found(board: Board, s: Seq<CompressedState>, known: Seq<bool>, ind: int, n: int)
    requires
        bfs_core(board, s, known, ind),
        ind < s.len(),
        n == s.len() - 1,
        n > 0,
        no_goal_below(board, s, n),
        board.goal_reached(cfg(s, n)),
        path_to(s, n).len() == path_to(s, ind).len() + 1,
    ensures
        board.solved_by(path_to(s, n)),
        forall|m: Seq<(Color, Direction)>| #[trigger] board.solved_by(m) ==> path_to(s, n).len() <= m.len(),
{
    lemma_replay_path(board, s, n);
    lemma_decoded(s[0].data@);
    lemma_decoded(s[n].data@);
    assert(key_of(s, 0) != key_of(s, n));
    assert(cfg(s, n) != board.starts@);
    assert forall|m: Seq<(Color, Direction)>| #[trigger] board.solved_by(m) implies path_to(s, n).len() <= m.len() by {
        if m.len() < path_to(s, n).len() {
            let end = replay(board, board.starts@, m);
            assert forall|t: int| 0 <= t < s.len() && (#[trigger] path_to(s, t)).len() < m.len() implies t < ind by {
                if t >= ind {
                    assert(path_to(s, ind).len() <= path_to(s, t).len());
                }
            }
            lemma_reach(board, s, ind, m.len() as int, m);
            let t = choose|t: int| 0 <= t < s.len() && #[trigger] cfg(s, t) == end && path_to(s, t).len() <= m.len();
            assert(t != 0);
            if t < n {
                assert(!board.goal_reached(cfg(s, t)));
            }
        }
    }
}

/// The moves along the parents from index `n` back to the start, in the order
/// they are made.
fn trace_back(vec: &Vec<CompressedState>, n: usize) -> (r: Vec<(Color, Direction)>)
    requires
        n < vec@.len(),
        forall|i: int| 0 < i < vec@.len() ==> 0 <= #[trigger] parent_of(vec@, i) < i,
    ensures
        r@ == path_to(vec@, n as int),
{
    let mut ret: Vec<(Color, Direction)> = Vec::new();
    let mut current_state_ind = n;
    while current_state_ind != 0
        invariant
            current_state_ind < vec@.len(),
            forall|i: int| 0 < i < vec@.len() ==> 0 <= #[trigger] parent_of(vec@, i) < i,
            path_to(vec@, n as int) == path_to(vec@, current_state_ind as int) + ret@.reverse(),
        decreases current_state_ind,
    {
        let state = vec[current_state_ind].into_state();
        let ghost cur = current_state_ind as int;
        let ghost before = ret@;
        ret.push((state.color, state.dir));
        current_state_ind = state.parent_id;
        proof {
            assert(parent_of(vec@, cur) == current_state_ind);
            assert(path_to(vec@, cur) == path_to(vec@, current_state_ind as int).push(move_of(vec@, cur)));
            assert(ret@.reverse() =~= seq![move_of(vec@, cur)] + before.reverse());
            assert(path_to(vec@, n as int) =~= path_to(vec@, current_state_ind as int) + ret@.reverse());
        }
    }
    assert(path_to(vec@, 0) =~= Seq::<(Color, Direction)>::empty());
    assert(path_to(vec@, n as int) =~= ret@.reverse());
    let mut out: Vec<(Color, Direction)> = Vec::new();
    let mut i = ret.len();
    while i > 0
        invariant
            i <= ret@.len(),
            out@.len() == ret@.len() - i,
            forall|j: int| 0 <= j < out@.len() ==> out@[j] == ret@[ret@.len() - 1 - j],
        decreases i,
    {
        i = i - 1;
        out.push(ret[i]);
    }
    assert(out@ =~= ret@.reverse());
    out
}

impl Board {
    /// A shortest sequence of moves after which the goal's robot stands on the
    /// goal in a configuration other than the start, found by breadth-first
    /// search; `None` when there is none.
    ///
    /// Moves are tried robot by robot (red, green, blue, yellow) and, for each
    /// robot, up, down, left, right; of the shortest sequences, the one
    /// returned comes first in this order (`lex_le`).
    #[verifier::rlimit(100)]
    pub fn search(&self) -> (r: Option<Vec<(Color, Direction)>>)
        requires
            self.wf(),
            usize::BITS == 64,
        ensures
            r is None <==> !exists|m: Seq<(Color, Direction)>| #[trigger] self.solved_by(m),
            r matches Some(moves) ==> {
                &&& self.solved_by(moves@)
                &&& replay(*self, self.starts@, moves@)[color_index(self.goal_color)] == self.goal
                &&& replay(*self, self.starts@, moves@) != self.starts@
                &&& forall|m: Seq<(Color, Direction)>| #[trigger] self.solved_by(m) ==> moves@.len() <= m.len()
                &&& forall|m: Seq<(Color, Direction)>|
                    #[trigger] self.solved_by(m) && m.len() == moves@.len() ==> lex_le(moves@, m)
            },
    {
        let state = State {
            parent_id: 0,
            color: Color::R,
            dir: Direction::Up,
            positions: self.starts,
        };
        assert((1usize << 32usize) == 0x1_0000_0000) by (bit_vector)
            requires
                usize::BITS == 64,
        ;
        let mut known = CompactBoolArray::new(1 << 32);
        let mut vec: Vec<CompressedState> = Vec::new();
        vec.push(CompressedState::from(&state));
        proof {
            lemma_pack_roundtrip(state);
            lemma_decoded(vec@[0].data@);
        }
        known.set(vec[vec.len() - 1].get_comp_position() as usize);
        let mut current_state_ind: usize = 0;
        proof {
            let s = vec@;
            assert(cfg(s, 0) == self.starts@);
            assert(path_to(s, 0).len() == 0);
            assert forall|k: int| 0 <= k < 0x1_0000_0000 implies (#[trigger] known@[k] <==> key_known(s, k)) by {
                if k == key_of(s, 0) {
                    assert(key_known(s, k));
                }
            }
            assert(bfs_core(*self, s, known@, 0));
            lemma_order_start(*self, s);
        }
        loop
            invariant
                self.wf(),
                known.wf(),
                bfs_core(*self, vec@, known@, current_state_ind as int),
                bfs_order(*self, vec@, current_state_ind as int, 0),
                no_goal_below(*self, vec@, vec@.len() as int),
            decreases 0x2_0000_0000 - vec@.len() - current_state_ind,
        {
            if current_state_ind == vec.len() {
                proof {
                    lemma_exhausted(*self, vec@, known@);
                }
                return None;
            }
            let state = vec[current_state_ind].into_state();
            let ghost ind = current_state_ind as int;
            let ghost len0 = vec@.len();
            proof {
                lemma_decoded(vec@[ind].data@);
            }
            let mut k: usize = 0;
            while k < 16
                invariant
                    self.wf(),
                    known.wf(),
                    ind == current_state_ind,
                    ind < vec@.len(),
                    vec@.len() >= len0,
                    k <= 16,
                    bfs_core(*self, vec@, known@, ind),
                    bfs_order(*self, vec@, ind, k as int),
                    no_goal_below(*self, vec@, vec@.len() as int),
                    state.positions@ == cfg(vec@, ind),
                    all_on_board(state.positions@),
                    forall|k2: int| 0 <= k2 < k ==> #[trigger] found_within(vec@, apply_move(*self, cfg(vec@, ind), move_at(k2)), path_to(vec@, ind).len() + 1),
                decreases 16 - k,
            {
                let c = color_from_index(k / 4);
                let d = direction_from_index(k % 4);
                let ghost m = (c, d);
                assert(move_at(k as int) == m);
                if let Some(new_state) = state.turn(current_state_ind, c, d, self) {
                    let cstate = CompressedState::from(&new_state);
                    proof {
                        lemma_move_stays_on_board(*self, cfg(vec@, ind), m);
                        lemma_pack_roundtrip(new_state);
                        lemma_key_bounds(new_state.positions@);
                    }
                    if !known.is_set(cstate.get_comp_position() as usize) {
                        let ghost s0 = vec@;
                        let ghost known0 = known@;
                        vec.push(CompressedState::from(&new_state));
                        known.set(cstate.get_comp_position() as usize);
                        proof {
                            lemma_store(*self, s0, known0, ind, k as int, vec@.last(), new_state);
                            assert(vec@ == s0.push(vec@.last()));
                        }
                        if new_state.get_position(self.goal_color) == self.goal {
                            let n = vec.len() - 1;
                            proof {
                                lemma_found(*self, vec@, known@, ind, n as int);
                                lemma_found_first(*self, vec@, known@, ind, k as int, n as int);
                            }
                            return Some(trace_back(&vec, n));
                        }
                    } else {
                        proof {
                            let key = positions_key(new_state.positions@);
                            assert(known@[key]);
                            lemma_order_next(*self, vec@, ind, k as int);
                            let t = choose|t: int| 0 <= t < vec@.len() && #[trigger] key_of(vec@, t) == key;
                            lemma_decoded(vec@[t].data@);
                            lemma_key_injective(cfg(vec@, t), new_state.positions@);
                            assert(found_within(vec@, apply_move(*self, cfg(vec@, ind), m), path_to(vec@, ind).len() + 1)) by {
                                assert(cfg(vec@, t) == apply_move(*self, cfg(vec@, ind), m));
                            }
                        }
                    }
                } else {
                    proof {
                        lemma_order_next(*self, vec@, ind, k as int);
                        assert(apply_move(*self, cfg(vec@, ind), m) =~= cfg(vec@, ind));
                        assert(found_within(vec@, apply_move(*self, cfg(vec@, ind), m), path_to(vec@, ind).len() + 1)) by {
                            assert(cfg(vec@, ind) == apply_move(*self, cfg(vec@, ind), m));
                        }
                    }
                }
                k = k + 1;
            }
            proof {
                assert forall|m: (Color, Direction)| #[trigger] found_within(vec@, apply_move(*self, cfg(vec@, ind), m), path_to(vec@, ind).len() + 1) by {
                    lemma_move_at_index(m);
                    let k2 = 4 * color_index(m.0) + direction_index(m.1);
                    assert(found_within(vec@, apply_move(*self, cfg(vec@, ind), move_at(k2)), path_to(vec@, ind).len() + 1));
                }
                assert(expanded(*self, vec@, ind));
                assert forall|j: int| 0 <= j < ind + 1 implies #[trigger] expanded(*self, vec@, j) by {
                    if j < ind {
                        assert(expanded(*self, vec@, j));
                    }
                }
                if ind + 1 < vec@.len() {
                    assert(path_to(vec@, ind).len() <= path_to(vec@, ind + 1).len());
                }
                lemma_order_advance(*self, vec@, ind);
            }
            current_state_ind = current_state_ind + 1;
        }
    }

    /// A shortest sequence of moves after which the goal's robot stands on the
    /// goal in a configuration other than the start; the same as `search`
    /// returns. The puzzle must have one.
    pub fn solve(&self) -> (r: Vec<(Color, Direction)>)
        requires
            self.wf(),
            usize::BITS == 64,
            exists|m: Seq<(Color, Direction)>| #[trigger] self.solved_by(m),
        ensures
            self.solved_by(r@),
            replay(*self, self.starts@, r@)[color_index(self.goal_color)] == self.goal,
            replay(*self, self.starts@, r@) != self.starts@,
            forall|m: Seq<(Color, Direction)>| #[trigger] self.solved_by(m) ==> r@.len() <= m.len(),
            forall|m: Seq<(Color, Direction)>|
                #[trigger] self.solved_by(m) && m.len() == r@.len() ==> lex_le(r@, m),
    {
        match self.search() {
            Some(moves) => moves,
            None => {
                assert(false);
                Vec::new()
            },
        }
    }
}

} // verus!
