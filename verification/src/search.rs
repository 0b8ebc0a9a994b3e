//! Backtracking search over the move space: at each configuration, views
//! drive move generation, each candidate shift is applied destructively,
//! explored, and undone. A visited set of canonical configuration keys
//! prevents re-exploring a configuration reached by another move order,
//! which also bounds the recursion and is what the termination measure
//! counts.

use vstd::prelude::*;
use vstd::set_lib::{lemma_int_range, lemma_len_subset, set_int_range};

use crate::board::{lemma_shift_preserves_wf, lemma_shift_roundtrip, Board, BoardModel};
use crate::geometry::{Direction, Orientation};
use crate::raycast::lemma_view_move_legal;

verus! {

/// Outcome of a search: a replayable solving move sequence, or the
/// certainty that the explored space holds none.
#[derive(Debug, PartialEq, Eq)]
pub enum SearchOutcome {
    Solved(Vec<(usize, Direction)>),
    Exhausted,
}

/// Every move in `moves`, applied in order from `m`, is legal.
pub open spec fn replay_ok(m: BoardModel, moves: Seq<(usize, Direction)>) -> bool
    decreases moves.len(),
{
    moves.len() == 0 || (m.shift_ok(moves[0].0 as int, moves[0].1) && replay_ok(
        m.do_shift(moves[0].0 as int, moves[0].1),
        moves.drop_first(),
    ))
}

/// The board reached by applying `moves` in order from `m`.
pub open spec fn replay(m: BoardModel, moves: Seq<(usize, Direction)>) -> BoardModel
    decreases moves.len(),
{
    if moves.len() == 0 {
        m
    } else {
        replay(m.do_shift(moves[0].0 as int, moves[0].1), moves.drop_first())
    }
}

/// Extending a legal move sequence by one move keeps it legal exactly when
/// the move is legal on the board the sequence reaches.
pub proof fn lemma_replay_push(m: BoardModel, moves: Seq<(usize, Direction)>, mv: (usize, Direction))
    requires
        replay_ok(m, moves),
    ensures
        replay_ok(m, moves.push(mv)) <==> replay(m, moves).shift_ok(mv.0 as int, mv.1),
        replay(m, moves).shift_ok(mv.0 as int, mv.1) ==> replay(m, moves.push(mv)) == replay(
            m,
            moves,
        ).do_shift(mv.0 as int, mv.1),
    decreases moves.len(),
{
    if moves.len() == 0 {
        let stepped = m.do_shift(mv.0 as int, mv.1);
        assert(moves.push(mv)[0] == mv);
        assert(moves.push(mv).drop_first() =~= Seq::<(usize, Direction)>::empty());
        assert(replay(m, moves) == m);
        assert(replay_ok(stepped, moves.push(mv).drop_first()));
        assert(replay(stepped, moves.push(mv).drop_first()) == stepped);
    } else {
        let ms = m.do_shift(moves[0].0 as int, moves[0].1);
        lemma_replay_push(ms, moves.drop_first(), mv);
        assert(moves.push(mv)[0] == moves[0]);
        assert(moves.push(mv).drop_first() =~= moves.drop_first().push(mv));
        assert(replay(m, moves) == replay(ms, moves.drop_first()));
        assert(replay_ok(m, moves.push(mv)) <==> (m.shift_ok(moves[0].0 as int, moves[0].1)
            && replay_ok(ms, moves.drop_first().push(mv))));
        assert(replay(m, moves.push(mv)) == replay(ms, moves.drop_first().push(mv)));
    }
}

/// The canonical key of a configuration: every car's anchor coordinates,
/// in ordinal order. Two boards with the same dimensions and car shapes
/// share a key exactly when every car stands in the same place.
pub open spec fn key_of(m: BoardModel) -> Seq<u8> {
    Seq::new(
        2 * m.cars.len(),
        |i: int|
            if i % 2 == 0 {
                m.cars[i / 2].0.row
            } else {
                m.cars[i / 2].0.col
            },
    )
}

/// The key sequences stored in the visited vector.
pub open spec fn keys_of(visited: Seq<Vec<u8>>) -> Seq<Seq<u8>> {
    visited.map_values(|v: Vec<u8>| v@)
}

/// `key` is already recorded in the visited vector.
pub open spec fn contains_key(visited: Seq<Vec<u8>>, key: Seq<u8>) -> bool {
    exists|i: int| 0 <= i < visited.len() && (#[trigger] visited[i])@ == key
}

/// Visited-set invariant: pairwise-distinct keys, each of the fixed length
/// that a board with `n` cars produces.
pub open spec fn visited_inv(visited: Seq<Vec<u8>>, n: int) -> bool {
    &&& keys_of(visited).no_duplicates()
    &&& forall|i: int| 0 <= i < visited.len() ==> (#[trigger] visited[i])@.len() == 2 * n
}

/// `256 ^ n`: how many byte sequences of length `n` exist.
pub open spec fn pow256(n: nat) -> nat
    decreases n,
{
    if n == 0 {
        1nat
    } else {
        256 * pow256((n - 1) as nat)
    }
}

/// The numeric value of a byte sequence read as a base-256 numeral.
pub open spec fn key_val(s: Seq<u8>) -> int
    decreases s.len(),
{
    if s.len() == 0 {
        0
    } else {
        key_val(s.drop_last()) * 256 + s.last()
    }
}

/// A byte sequence's numeral is bounded by `256 ^ length`.
pub proof fn lemma_key_val_bound(s: Seq<u8>)
    ensures
        0 <= key_val(s) < pow256(s.len()),
    decreases s.len(),
{
    if s.len() > 0 {
        lemma_key_val_bound(s.drop_last());
        let a = key_val(s.drop_last());
        let p = pow256((s.len() - 1) as nat);
        assert(a * 256 + s.last() < p * 256) by (nonlinear_arith)
            requires
                0 <= a < p,
                0 <= s.last() < 256,
        ;
        assert(0 <= a * 256 + s.last()) by (nonlinear_arith)
            requires
                0 <= a,
                0 <= s.last(),
        ;
    }
}

/// Two byte sequences of equal length with the same numeral are equal.
pub proof fn lemma_key_val_inj(s1: Seq<u8>, s2: Seq<u8>)
    requires
        s1.len() == s2.len(),
        key_val(s1) == key_val(s2),
    ensures
        s1 == s2,
    decreases s1.len(),
{
    if s1.len() > 0 {
        let a1 = key_val(s1.drop_last());
        let a2 = key_val(s2.drop_last());
        assert(a1 == a2 && s1.last() == s2.last()) by {
            assert((a1 - a2) * 256 == s2.last() - s1.last()) by (nonlinear_arith)
                requires
                    a1 * 256 + s1.last() == a2 * 256 + s2.last(),
            ;
        }
        lemma_key_val_inj(s1.drop_last(), s2.drop_last());
        assert(s1 =~= s2) by {
            assert(s1.drop_last() == s2.drop_last());
            assert(forall|i: int|
                0 <= i < s1.len() - 1 ==> s1[i] == s1.drop_last()[i] && s2[i]
                    == s2.drop_last()[i]);
        }
    } else {
        assert(s1 =~= s2);
    }
}

/// Pigeonhole bound for the visited set: pairwise-distinct keys of length
/// `2 * n` number at most `256 ^ (2 * n)`.
pub proof fn lemma_visited_bounded(visited: Seq<Vec<u8>>, n: int)
    requires
        visited_inv(visited, n),
        n >= 0,
    ensures
        visited.len() <= pow256((2 * n) as nat),
{
    let b = pow256((2 * n) as nat) as int;
    let ks = keys_of(visited);
    let vals = ks.map_values(|s: Seq<u8>| key_val(s));
    assert(vals.len() == visited.len());
    assert forall|i: int, j: int|
        0 <= i < vals.len() && 0 <= j < vals.len() && i != j implies vals[i] != vals[j] by {
        if vals[i] == vals[j] {
            lemma_key_val_inj(ks[i], ks[j]);
        }
    }
    assert(vals.no_duplicates());
    vals.unique_seq_to_set();
    assert forall|x: int| vals.to_set().contains(x) implies set_int_range(0, b).contains(x) by {
        let i = choose|i: int| 0 <= i < vals.len() && vals[i] == x;
        lemma_key_val_bound(ks[i]);
    }
    lemma_int_range(0, b);
    lemma_len_subset(vals.to_set(), set_int_range(0, b));
}


/// Two boards of the same dimensions whose cars agree in shape (length and
/// orientation) car by car; a shift never changes the shape.
pub open spec fn same_shape(a: BoardModel, b: BoardModel) -> bool {
    &&& a.rows == b.rows
    &&& a.cols == b.cols
    &&& a.cars.len() == b.cars.len()
    &&& forall|i: int| 0 <= i < a.cars.len() ==> (#[trigger] a.cars[i]).1 == b.cars[i].1
}

/// A shift preserves the board's shape.
pub proof fn lemma_shape_shift(m: BoardModel, ord: int, d: Direction)
    requires
        1 <= ord <= m.cars.len(),
    ensures
        same_shape(m, m.do_shift(ord, d)),
{
}

/// Among boards of one shape, the configuration key identifies the board:
/// equal keys mean every car stands in the same place.
pub proof fn lemma_key_identifies(a: BoardModel, b: BoardModel)
    requires
        same_shape(a, b),
        key_of(a) == key_of(b),
    ensures
        a == b,
{
    assert forall|i: int| 0 <= i < a.cars.len() implies a.cars[i] == b.cars[i] by {
        assert(key_of(a)[2 * i] == a.cars[i].0.row);
        assert(key_of(b)[2 * i] == b.cars[i].0.row);
        assert(key_of(a)[2 * i + 1] == a.cars[i].0.col);
        assert(key_of(b)[2 * i + 1] == b.cars[i].0.col);
    }
    assert(a.cars =~= b.cars);
    assert(a =~= b);
}

/// The newly visited part of `v1` (beyond the exception set `v0`) is
/// closed: none of its configurations is solved, and every legal single
/// shift out of one of them lands on a configuration recorded in `v1`.
pub open spec fn closed_except(root: BoardModel, v1: Seq<Vec<u8>>, v0: Seq<Vec<u8>>) -> bool {
    forall|m: BoardModel|
        same_shape(root, m) && #[trigger] contains_key(v1, key_of(m)) && !contains_key(
            v0,
            key_of(m),
        ) ==> !m.solved() && forall|o: int, d: Direction| #[trigger]
            m.shift_ok(o, d) ==> contains_key(v1, key_of(m.do_shift(o, d)))
}

/// Closedness composes across two stages of growth of the visited set.
pub proof fn lemma_closed_trans(
    root: BoardModel,
    v0: Seq<Vec<u8>>,
    v1: Seq<Vec<u8>>,
    v2: Seq<Vec<u8>>,
)
    requires
        closed_except(root, v1, v0),
        closed_except(root, v2, v1),
        forall|k: Seq<u8>| #[trigger] contains_key(v1, k) ==> contains_key(v2, k),
    ensures
        closed_except(root, v2, v0),
{
    assert forall|m: BoardModel|
        same_shape(root, m) && #[trigger] contains_key(v2, key_of(m)) && !contains_key(
            v0,
            key_of(m),
        ) implies !m.solved() && forall|o: int, d: Direction| #[trigger]
        m.shift_ok(o, d) ==> contains_key(v2, key_of(m.do_shift(o, d))) by {
        if contains_key(v1, key_of(m)) {
            assert(!m.solved());
            assert forall|o: int, d: Direction| #[trigger] m.shift_ok(o, d) implies contains_key(
                v2,
                key_of(m.do_shift(o, d)),
            ) by {
                assert(contains_key(v1, key_of(m.do_shift(o, d))));
            }
        }
    }
}

/// The candidate `(o, d)` still lies ahead of position `(ord, fwd)` in the
/// fixed enumeration order: cars by growing ordinal, backward before
/// forward along each car's axis.
pub open spec fn cand_pending(m: BoardModel, o: int, d: Direction, ord: int, fwd: bool) -> bool {
    ord < o || (o == ord && (!fwd || d == crate::raycast::forward_of(m.cars[o - 1].1.orientation)))
}

/// A configuration recorded in a closed visited set admits no solving
/// move sequence: no replay out of it ever reaches a solved board.
pub proof fn lemma_closed_no_solution(
    root: BoardModel,
    v: Seq<Vec<u8>>,
    m: BoardModel,
    moves: Seq<(usize, Direction)>,
)
    requires
        closed_except(root, v, Seq::<Vec<u8>>::empty()),
        same_shape(root, m),
        contains_key(v, key_of(m)),
        replay_ok(m, moves),
    ensures
        !replay(m, moves).solved(),
    decreases moves.len(),
{
    assert(!contains_key(Seq::<Vec<u8>>::empty(), key_of(m)));
    if moves.len() == 0 {
        assert(!m.solved());
    } else {
        let o = moves[0].0 as int;
        let d = moves[0].1;
        let child = m.do_shift(o, d);
        assert(m.shift_ok(o, d));
        assert(contains_key(v, key_of(child)));
        lemma_shape_shift(m, o, d);
        assert(same_shape(root, child)) by {
            assert(forall|i: int|
                0 <= i < root.cars.len() ==> (#[trigger] root.cars[i]).1 == m.cars[i].1
                    && m.cars[i].1 == child.cars[i].1);
        }
        lemma_closed_no_solution(root, v, child, moves.drop_first());
    }
}

/// Byte-for-byte equality of two keys.
fn keys_equal(a: &Vec<u8>, b: &Vec<u8>) -> (r: bool)
    ensures
        r <==> a@ == b@,
{
    if a.len() != b.len() {
        proof {
            if a@ == b@ {
                assert(a@.len() == b@.len());
            }
        }
        return false;
    }
    let mut i: usize = 0;
    while i < a.len()
        invariant
            a@.len() == b@.len(),
            i <= a@.len(),
            forall|j: int| 0 <= j < i ==> a@[j] == b@[j],
        decreases a@.len() - i,
    {
        if a[i] != b[i] {
            proof {
                if a@ == b@ {
                    assert(a@[i as int] == b@[i as int]);
                }
            }
            return false;
        }
        i = i + 1;
    }
    proof {
        assert(a@ =~= b@);
    }
    true
}

/// Whether `key` is already recorded among the visited configurations.
fn key_seen(visited: &Vec<Vec<u8>>, key: &Vec<u8>) -> (r: bool)
    ensures
        r <==> contains_key(visited@, key@),
{
    let mut i: usize = 0;
    while i < visited.len()
        invariant
            i <= visited@.len(),
            forall|j: int| 0 <= j < i ==> (#[trigger] visited@[j])@ != key@,
        decreases visited@.len() - i,
    {
        if keys_equal(&visited[i], key) {
            return true;
        }
        i = i + 1;
    }
    false
}

impl Board {
    /// The canonical key of the current configuration; see [`key_of`].
    pub fn config_key(&self) -> (k: Vec<u8>)
        ensures
            k@ == key_of(self@),
    {
        let mut k: Vec<u8> = Vec::new();
        let mut i: usize = 0;
        while i < self.cars.len()
            invariant
                i <= self.cars@.len(),
                k@.len() == 2 * i,
                forall|n: int|
                    0 <= n < k@.len() ==> k@[n] == (if n % 2 == 0 {
                        (#[trigger] self.cars@[n / 2]).0.row
                    } else {
                        self.cars@[n / 2].0.col
                    }),
            decreases self.cars@.len() - i,
        {
            let p = self.cars[i].0;
            k.push(p.row);
            k.push(p.col);
            i = i + 1;
        }
        proof {
            assert(k@ =~= key_of(self@));
        }
        k
    }
}

/// One node of the depth-first exploration: record the configuration,
/// test the solved predicate, then try every candidate move.
fn explore_node(
    board: &mut Board,
    path: &mut Vec<(usize, Direction)>,
    visited: &mut Vec<Vec<u8>>,
    root: Ghost<BoardModel>,
    bound: Ghost<int>,
) -> (found: bool)
    requires
        old(board)@.puzzle_wf(),
        same_shape(root@, old(board)@),
        replay_ok(root@, old(path)@),
        replay(root@, old(path)@) == old(board)@,
        visited_inv(old(visited)@, old(board)@.cars.len() as int),
        bound@ == pow256(2 * old(board)@.cars.len()),
        !contains_key(old(visited)@, key_of(old(board)@)),
    ensures
        final(board)@.cars.len() == old(board)@.cars.len(),
        final(board)@.puzzle_wf(),
        visited_inv(final(visited)@, old(board)@.cars.len() as int),
        final(visited)@.len() > old(visited)@.len(),
        forall|k: Seq<u8>| #[trigger]
            contains_key(old(visited)@, k) ==> contains_key(final(visited)@, k),
        !found ==> final(board)@ == old(board)@ && final(path)@ == old(path)@,
        !found ==> closed_except(root@, final(visited)@, old(visited)@) && contains_key(
            final(visited)@,
            key_of(old(board)@),
        ),
        found ==> replay_ok(root@, final(path)@) && replay(root@, final(path)@) == final(board)@
            && final(board)@.solved(),
        old(board)@.solved() ==> found && final(path)@ == old(path)@,
    decreases bound@ - visited@.len(), 0int, 0int, 0int,
{
    let ghost n = board@.cars.len() as int;
    let key = board.config_key();
    let ghost v0 = visited@;
    visited.push(key);
    let ghost v0p = visited@;
    proof {
        assert(keys_of(v0p) =~= keys_of(v0).push(key@));
        assert forall|i: int, j: int|
            0 <= i < keys_of(v0p).len() && 0 <= j < keys_of(v0p).len() && i != j implies keys_of(
            v0p,
        )[i] != keys_of(v0p)[j] by {
            if i < v0.len() && j < v0.len() {
                assert(keys_of(v0).no_duplicates());
            } else if j == v0.len() {
                assert(keys_of(v0p)[j] == key@);
                assert(v0p[i]@ != key@);
            } else {
                assert(keys_of(v0p)[i] == key@);
                assert(v0p[j]@ != key@);
            }
        }
        assert(visited_inv(v0p, n));
        lemma_visited_bounded(v0p, n);
        assert forall|kk: Seq<u8>| #[trigger] contains_key(v0, kk) implies contains_key(
            v0p,
            kk,
        ) by {
            let i = choose|i: int| 0 <= i < v0.len() && v0[i]@ == kk;
            assert(v0p[i]@ == kk);
        }
        assert(v0p[v0.len() as int]@ == key@);
        assert(contains_key(v0p, key_of(old(board)@)));
    }
    if board.is_solved() {
        return true;
    }
    let found2 = explore_cands(board, path, visited, root, bound, 1, false);
    proof {
        if !found2 {
            let c = old(board)@;
            let vexit = visited@;
            assert(contains_key(vexit, key_of(c)));
            assert forall|m: BoardModel|
                same_shape(root@, m) && #[trigger] contains_key(vexit, key_of(m))
                    && !contains_key(v0, key_of(m)) implies !m.solved() && (forall|
                o: int,
                d: Direction,
            | #[trigger]
                m.shift_ok(o, d) ==> contains_key(vexit, key_of(m.do_shift(o, d)))) by {
                if contains_key(v0p, key_of(m)) {
                    let i = choose|i: int| 0 <= i < v0p.len() && v0p[i]@ == key_of(m);
                    if i < v0.len() {
                        assert(v0[i]@ == key_of(m));
                        assert(contains_key(v0, key_of(m)));
                    }
                    assert(key_of(m) == key@);
                    assert(same_shape(c, m)) by {
                        assert forall|j: int| 0 <= j < c.cars.len() implies (
                        #[trigger] c.cars[j]).1 == m.cars[j].1 by {
                            assert(root@.cars[j].1 == c.cars[j].1);
                            assert(root@.cars[j].1 == m.cars[j].1);
                        }
                    }
                    lemma_key_identifies(c, m);
                    assert(!m.solved());
                    assert forall|o: int, d: Direction| #[trigger]
                        m.shift_ok(o, d) implies contains_key(
                        vexit,
                        key_of(m.do_shift(o, d)),
                    ) by {
                        assert(c.shift_ok(o, d));
                        assert(cand_pending(c, o, d, 1, false));
                    }
                } else {
                    assert(!m.solved());
                }
            }
        }
    }
    found2
}

/// Tries the candidate move `(ord, fwd)` — backward then forward along the
/// car's axis — and every later candidate in the fixed enumeration order,
/// backtracking with a guaranteed undo after each unsolved branch.
fn explore_cands(
    board: &mut Board,
    path: &mut Vec<(usize, Direction)>,
    visited: &mut Vec<Vec<u8>>,
    root: Ghost<BoardModel>,
    bound: Ghost<int>,
    ord: usize,
    fwd: bool,
) -> (found: bool)
    requires
        old(board)@.puzzle_wf(),
        same_shape(root@, old(board)@),
        replay_ok(root@, old(path)@),
        replay(root@, old(path)@) == old(board)@,
        visited_inv(old(visited)@, old(board)@.cars.len() as int),
        bound@ == pow256(2 * old(board)@.cars.len()),
        1 <= ord <= old(board)@.cars.len(),
    ensures
        final(board)@.cars.len() == old(board)@.cars.len(),
        final(board)@.puzzle_wf(),
        visited_inv(final(visited)@, old(board)@.cars.len() as int),
        final(visited)@.len() >= old(visited)@.len(),
        forall|k: Seq<u8>| #[trigger]
            contains_key(old(visited)@, k) ==> contains_key(final(visited)@, k),
        !found ==> final(board)@ == old(board)@ && final(path)@ == old(path)@,
        !found ==> closed_except(root@, final(visited)@, old(visited)@),
        !found ==> forall|o: int, d: Direction|
            cand_pending(old(board)@, o, d, ord as int, fwd) && #[trigger] old(
                board,
            )@.shift_ok(o, d) ==> contains_key(
                final(visited)@,
                key_of(old(board)@.do_shift(o, d)),
            ),
        found ==> replay_ok(root@, final(path)@) && replay(root@, final(path)@) == final(board)@
            && final(board)@.solved(),
    decreases
            bound@ - visited@.len(),
            1int,
            old(board)@.cars.len() - ord,
            (if fwd {
                0int
            } else {
                1int
            }),
{
    let ghost n = board@.cars.len() as int;
    let ghost v_entry = visited@;
    let ghost c = board@;
    proof {
        lemma_visited_bounded(visited@, n);
    }
    let orientation = board.cars[ord - 1].1.orientation;
    let d = if fwd {
        match orientation {
            Orientation::LeftRight => Direction::Right,
            Orientation::UpDown => Direction::Down,
        }
    } else {
        match orientation {
            Orientation::LeftRight => Direction::Left,
            Orientation::UpDown => Direction::Up,
        }
    };
    let v = board.car_view(ord, d);
    proof {
        lemma_view_move_legal(board@, ord as int, d, v.distance as int, v.observed);
    }
    if v.distance > 0 {
        let ghost m_pre = board@;
        let ghost path_pre = path@;
        let _shifted = board.shift(ord, d);
        proof {
            assert(board@ == m_pre.do_shift(ord as int, d));
            lemma_shift_preserves_wf(m_pre, ord as int, d);
            assert(board@.puzzle_wf());
            lemma_shape_shift(m_pre, ord as int, d);
            assert(same_shape(root@, board@)) by {
                assert forall|j: int| 0 <= j < root@.cars.len() implies (
                #[trigger] root@.cars[j]).1 == board@.cars[j].1 by {
                    assert(root@.cars[j].1 == m_pre.cars[j].1);
                    assert(m_pre.cars[j].1 == board@.cars[j].1);
                }
            }
        }
        let ckey = board.config_key();
        if !key_seen(visited, &ckey) {
            path.push((ord, d));
            proof {
                lemma_replay_push(root@, path_pre, (ord, d));
            }
            let sub = explore_node(board, path, visited, root, bound);
            if sub {
                return true;
            }
            path.pop();
            proof {
                assert(path@ =~= path_pre);
            }
        }
        proof {
            lemma_shift_roundtrip(m_pre, ord as int, d);
        }
        let _undone = board.unshift(ord, d);
        proof {
            assert(board@ == m_pre);
        }
    }
    proof {
        lemma_visited_bounded(visited@, n);
        assert(board@ == c);
        assert(closed_except(root@, visited@, v_entry)) by {
            if visited@ == v_entry {
                assert forall|m: BoardModel|
                    same_shape(root@, m) && #[trigger] contains_key(visited@, key_of(m))
                        && !contains_key(v_entry, key_of(m)) implies !m.solved() && (forall|
                    o: int,
                    d2: Direction,
                | #[trigger]
                    m.shift_ok(o, d2) ==> contains_key(
                        visited@,
                        key_of(m.do_shift(o, d2)),
                    )) by {}
            }
        }
        assert(c.shift_ok(ord as int, d) ==> contains_key(
            visited@,
            key_of(c.do_shift(ord as int, d)),
        ));
    }
    let ghost v_mid = visited@;
    if !fwd {
        let found2 = explore_cands(board, path, visited, root, bound, ord, true);
        proof {
            if !found2 {
                lemma_closed_trans(root@, v_entry, v_mid, visited@);
                assert forall|o: int, d2: Direction|
                    cand_pending(c, o, d2, ord as int, false) && #[trigger] c.shift_ok(
                        o,
                        d2,
                    ) implies contains_key(visited@, key_of(c.do_shift(o, d2))) by {
                    if !cand_pending(c, o, d2, ord as int, true) {
                        assert(o == ord as int);
                        assert(d2.spec_axis() == c.cars[o - 1].1.orientation);
                        assert(d2 == d);
                        assert(contains_key(v_mid, key_of(c.do_shift(o, d2))));
                    }
                }
            }
            assert forall|k: Seq<u8>| #[trigger] contains_key(v_entry, k) implies contains_key(
                visited@,
                k,
            ) by {
                assert(contains_key(v_mid, k));
            }
        }
        found2
    } else if ord < board.cars.len() {
        let found2 = explore_cands(board, path, visited, root, bound, ord + 1, false);
        proof {
            if !found2 {
                lemma_closed_trans(root@, v_entry, v_mid, visited@);
                assert forall|o: int, d2: Direction|
                    cand_pending(c, o, d2, ord as int, true) && #[trigger] c.shift_ok(
                        o,
                        d2,
                    ) implies contains_key(visited@, key_of(c.do_shift(o, d2))) by {
                    if !cand_pending(c, o, d2, ord as int + 1, false) {
                        assert(o == ord as int);
                        assert(d2 == d);
                        assert(contains_key(v_mid, key_of(c.do_shift(o, d2))));
                    }
                }
            }
            assert forall|k: Seq<u8>| #[trigger] contains_key(v_entry, k) implies contains_key(
                visited@,
                k,
            ) by {
                assert(contains_key(v_mid, k));
            }
        }
        found2
    } else {
        proof {
            assert forall|o: int, d2: Direction|
                cand_pending(c, o, d2, ord as int, true) && #[trigger] c.shift_ok(
                    o,
                    d2,
                ) implies contains_key(visited@, key_of(c.do_shift(o, d2))) by {
                assert(o == ord as int);
                assert(d2 == d);
            }
        }
        false
    }
}

/// Depth-first backtracking search from the given board. On success the
/// returned path, replayed move by move from the original board, is legal
/// throughout and ends in the solved configuration the board is left in;
/// a board that is already solved yields an empty path at once. On
/// exhaustion the board is restored untouched, and no legal move sequence
/// whatsoever reaches a solved configuration.
pub fn solve(board: &mut Board) -> (outcome: SearchOutcome)
    requires
        old(board)@.puzzle_wf(),
    ensures
        match outcome {
            SearchOutcome::Solved(path) => replay_ok(old(board)@, path@) && replay(
                old(board)@,
                path@,
            ) == final(board)@ && final(board)@.solved() && (old(board)@.solved() ==> path@.len()
                == 0),
            SearchOutcome::Exhausted => final(board)@ == old(board)@ && !old(board)@.solved()
                && forall|moves: Seq<(usize, Direction)>| #[trigger]
                replay_ok(old(board)@, moves) ==> !replay(old(board)@, moves).solved(),
        },
{
    let mut path: Vec<(usize, Direction)> = Vec::new();
    let mut visited: Vec<Vec<u8>> = Vec::new();
    let ghost root = board@;
    let ghost b = pow256(2 * board@.cars.len()) as int;
    proof {
        assert(visited@ =~= Seq::<Vec<u8>>::empty());
        assert(keys_of(visited@) =~= Seq::<Seq<u8>>::empty());
        assert(visited_inv(visited@, board@.cars.len() as int));
    }
    let found = explore_node(board, &mut path, &mut visited, Ghost(root), Ghost(b));
    if found {
        SearchOutcome::Solved(path)
    } else {
        proof {
            assert(closed_except(root, visited@, Seq::<Vec<u8>>::empty()));
            assert forall|moves: Seq<(usize, Direction)>| #[trigger]
                replay_ok(root, moves) implies !replay(root, moves).solved() by {
                lemma_closed_no_solution(root, visited@, root, moves);
            }
        }
        SearchOutcome::Exhausted
    }
}

} // verus!
